//! Grid indexing, the cell permutation of each rotation, and the canonical
//! form of a filled grid under the cube's symmetries.
//!
//! A grid of dimension `d` has `d * d * d` cells, flattened x-major:
//! `idx = x * d * d + y * d + z`.

use vstd::prelude::*;
use vstd::arithmetic::div_mod::{
    lemma_div_denominator, lemma_fundamental_div_mod, lemma_fundamental_div_mod_converse,
};

use crate::geometry::{rotate, rotate_point, Point, NUM_ROTATIONS};
use crate::pieces::{Coord, PlacedPiece, Puzzle, MAX_CUBES, MAX_PIECES};

verus! {

/// Largest supported grid dimension (64 cells).
pub const MAX_DIM: usize = 4;

/// Number of cells of a grid of dimension `d`.
pub open spec fn num_cells(d: int) -> int {
    d * d * d
}

/// Index of cell `(x, y, z)`.
pub open spec fn cell_of(d: int, x: int, y: int, z: int) -> int {
    x * d * d + y * d + z
}

/// Coordinates of cell `i`.
pub open spec fn coord_of(d: int, i: int) -> Point {
    (i / (d * d), (i / d) % d, i % d)
}

/// `p` lies inside the grid.
pub open spec fn in_grid(d: int, p: Point) -> bool {
    0 <= p.0 < d && 0 <= p.1 < d && 0 <= p.2 < d
}

/// Where rotation `r` about the grid's center sends the cell at `p`.
///
/// The rotation is applied to coordinates doubled relative to the center,
/// which are integers for odd and even `d` alike, and halved back after.
pub open spec fn rotate_in_grid(d: int, r: int, p: Point) -> Point {
    let m = d - 1;
    let q = rotate_point(r, (2 * p.0 - m, 2 * p.1 - m, 2 * p.2 - m));
    ((q.0 + m) / 2, (q.1 + m) / 2, (q.2 + m) / 2)
}

/// Where rotation `r` sends cell `i`.
pub open spec fn rotate_cell(d: int, r: int, i: int) -> int {
    let p = rotate_in_grid(d, r, coord_of(d, i));
    cell_of(d, p.0, p.1, p.2)
}

/// The rotation that undoes rotation `r`.
pub open spec fn inverse_rotation(r: int) -> int {
    let t = seq![0int, 3, 2, 1, 12, 23, 6, 17, 8, 9, 10, 11, 4, 19, 14, 21, 20, 7, 18, 13, 16, 15, 22, 5];
    t[r]
}

proof fn lemma_cell_bounds(d: int, x: int, y: int, z: int)
    requires
        in_grid(d, (x, y, z)),
    ensures
        0 <= cell_of(d, x, y, z) < num_cells(d),
        cell_of(d, x, y, z) == (x * d + y) * d + z,
{
    assert(0 <= cell_of(d, x, y, z) < num_cells(d) && cell_of(d, x, y, z) == (x * d + y) * d + z)
        by (nonlinear_arith)
        requires
            0 <= x < d,
            0 <= y < d,
            0 <= z < d,
    ;
}

/// Coordinates of a cell index, and back, give the same cell.
pub proof fn lemma_coord_of_cell(d: int, x: int, y: int, z: int)
    requires
        in_grid(d, (x, y, z)),
    ensures
        coord_of(d, cell_of(d, x, y, z)) == (x, y, z),
        0 <= cell_of(d, x, y, z) < num_cells(d),
{
    lemma_cell_bounds(d, x, y, z);
    let i = cell_of(d, x, y, z);
    let q = x * d + y;
    lemma_fundamental_div_mod_converse(i, d, q, z);
    assert(0 <= q) by (nonlinear_arith)
        requires
            q == x * d + y,
            0 <= x,
            0 <= y,
            0 < d,
    ;
    lemma_fundamental_div_mod_converse(q, d, x, y);
    lemma_div_denominator(i, d, d);
}

/// A cell index, converted to coordinates and back, is unchanged.
pub proof fn lemma_cell_of_coord(d: int, i: int)
    requires
        0 < d,
        0 <= i < num_cells(d),
    ensures
        in_grid(d, coord_of(d, i)),
        cell_of(d, coord_of(d, i).0, coord_of(d, i).1, coord_of(d, i).2) == i,
{
    lemma_fundamental_div_mod(i, d);
    lemma_fundamental_div_mod(i / d, d);
    lemma_div_denominator(i, d, d);
    let q = i / d;
    let x = q / d;
    let y = q % d;
    let z = i % d;
    assert(0 <= q) by (nonlinear_arith)
        requires
            0 <= i,
            0 < d,
            q == i / d,
    ;
    assert(x < d) by (nonlinear_arith)
        requires
            i < d * d * d,
            i == d * q + z,
            q == d * x + y,
            0 <= y < d,
            0 <= z < d,
            0 < d,
    ;
    assert(0 <= x) by (nonlinear_arith)
        requires
            0 <= q,
            q == d * x + y,
            0 <= y < d,
            0 < d,
    ;
    assert(i == x * d * d + y * d + z) by (nonlinear_arith)
        requires
            i == d * q + z,
            q == d * x + y,
    ;
}

pub proof fn lemma_half(v: int, m: int)
    ensures
        (2 * v - m + m) / 2 == v,
        (-(2 * v - m) + m) / 2 == m - v,
{
}

/// Rotation `r` keeps a cell inside the grid, and its inverse sends it back.
pub proof fn lemma_rotate_in_grid(d: int, r: int, p: Point)
    requires
        in_grid(d, p),
        0 <= r < NUM_ROTATIONS,
    ensures
        in_grid(d, rotate_in_grid(d, r, p)),
        rotate_in_grid(d, inverse_rotation(r), rotate_in_grid(d, r, p)) == p,
{
    let m = d - 1;
    lemma_half(p.0, m);
    lemma_half(p.1, m);
    lemma_half(p.2, m);
    lemma_half(m - p.0, m);
    lemma_half(m - p.1, m);
    lemma_half(m - p.2, m);
    if r == 0 {
    } else if r == 1 {
    } else if r == 2 {
    } else if r == 3 {
    } else if r == 4 {
    } else if r == 5 {
    } else if r == 6 {
    } else if r == 7 {
    } else if r == 8 {
    } else if r == 9 {
    } else if r == 10 {
    } else if r == 11 {
    } else if r == 12 {
    } else if r == 13 {
    } else if r == 14 {
    } else if r == 15 {
    } else if r == 16 {
    } else if r == 17 {
    } else if r == 18 {
    } else if r == 19 {
    } else if r == 20 {
    } else if r == 21 {
    } else if r == 22 {
    } else if r == 23 {
    }
}

/// Rotation `r` maps cell `i` to a cell, and its inverse maps it back.
pub proof fn lemma_rotate_cell(d: int, r: int, i: int)
    requires
        0 < d,
        0 <= i < num_cells(d),
        0 <= r < NUM_ROTATIONS,
    ensures
        0 <= rotate_cell(d, r, i) < num_cells(d),
        rotate_cell(d, inverse_rotation(r), rotate_cell(d, r, i)) == i,
{
    lemma_cell_of_coord(d, i);
    let p = coord_of(d, i);
    lemma_rotate_in_grid(d, r, p);
    let q = rotate_in_grid(d, r, p);
    lemma_coord_of_cell(d, q.0, q.1, q.2);
}

/// The inverse of a rotation is a rotation, and undoes it in turn.
pub proof fn lemma_inverse_rotation(r: int)
    requires
        0 <= r < NUM_ROTATIONS,
    ensures
        0 <= inverse_rotation(r) < NUM_ROTATIONS,
        inverse_rotation(inverse_rotation(r)) == r,
{
}

/// The identity rotation fixes every cell.
pub proof fn lemma_identity_rotation(d: int, i: int)
    requires
        0 < d,
        0 <= i < num_cells(d),
    ensures
        rotate_cell(d, 0, i) == i,
{
    lemma_cell_of_coord(d, i);
    let p = coord_of(d, i);
    lemma_half(p.0, d - 1);
    lemma_half(p.1, d - 1);
    lemma_half(p.2, d - 1);
}

/// Every rotation permutes the cells of the grid: it maps cells to cells,
/// no two cells to the same one, and every cell is reached (from where the
/// inverse rotation sends it). The identity rotation leaves every cell in
/// place.
pub proof fn lemma_rotation_is_permutation(d: int, r: int)
    requires
        0 < d,
        0 <= r < NUM_ROTATIONS,
    ensures
        forall|i: int| 0 <= i < num_cells(d) ==> 0 <= #[trigger] rotate_cell(d, r, i) < num_cells(d),
        forall|i: int, j: int|
            0 <= i < num_cells(d) && 0 <= j < num_cells(d) && #[trigger] rotate_cell(d, r, i)
                == #[trigger] rotate_cell(d, r, j) ==> i == j,
        forall|j: int|
            0 <= j < num_cells(d) ==> 0 <= #[trigger] rotate_cell(d, inverse_rotation(r), j)
                < num_cells(d) && rotate_cell(d, r, rotate_cell(d, inverse_rotation(r), j)) == j,
        forall|i: int| 0 <= i < num_cells(d) ==> #[trigger] rotate_cell(d, 0, i) == i,
{
    lemma_inverse_rotation(r);
    let v = inverse_rotation(r);
    assert forall|i: int| 0 <= i < num_cells(d) implies 0 <= #[trigger] rotate_cell(d, r, i) < num_cells(d) by {
        lemma_rotate_cell(d, r, i);
    }
    assert forall|i: int, j: int|
        0 <= i < num_cells(d) && 0 <= j < num_cells(d) && #[trigger] rotate_cell(d, r, i)
            == #[trigger] rotate_cell(d, r, j) implies i == j by {
        lemma_rotate_cell(d, r, i);
        lemma_rotate_cell(d, r, j);
    }
    assert forall|j: int| 0 <= j < num_cells(d) implies 0 <= #[trigger] rotate_cell(d, inverse_rotation(r), j)
        < num_cells(d) && rotate_cell(d, r, rotate_cell(d, inverse_rotation(r), j)) == j by {
        lemma_rotate_cell(d, v, j);
    }
    assert forall|i: int| 0 <= i < num_cells(d) implies #[trigger] rotate_cell(d, 0, i) == i by {
        lemma_identity_rotation(d, i);
    }
}

/// Converts `(x, y, z)` coordinates to a cell index.
pub fn coord_to_idx(dim: usize, x: i32, y: i32, z: i32) -> (idx: usize)
    requires
        dim <= MAX_DIM,
        in_grid(dim as int, (x as int, y as int, z as int)),
    ensures
        idx as int == cell_of(dim as int, x as int, y as int, z as int),
        idx < num_cells(dim as int),
{
    proof {
        lemma_cell_bounds(dim as int, x as int, y as int, z as int);
        assert(x * dim <= 16 && x * dim * dim <= 64 && y * dim <= 16) by (nonlinear_arith)
            requires
                0 <= x < dim,
                0 <= y < dim,
                dim <= 4,
        ;
    }
    (x as usize) * dim * dim + (y as usize) * dim + (z as usize)
}

/// Converts a cell index to `(x, y, z)` coordinates.
pub fn idx_to_coord(dim: usize, cell_index: usize) -> (c: Coord)
    requires
        0 < dim <= MAX_DIM,
        cell_index < num_cells(dim as int),
    ensures
        (c.0 as int, c.1 as int, c.2 as int) == coord_of(dim as int, cell_index as int),
        in_grid(dim as int, (c.0 as int, c.1 as int, c.2 as int)),
{
    proof {
        lemma_cell_of_coord(dim as int, cell_index as int);
        assert(dim * dim <= 16) by (nonlinear_arith)
            requires
                dim <= 4,
        ;
    }
    (
        (cell_index / (dim * dim)) as i32,
        ((cell_index / dim) % dim) as i32,
        (cell_index % dim) as i32,
    )
}

/// `table` holds, for each rotation and each cell, the cell it is sent to.
pub open spec fn is_rotation_table(d: int, table: Seq<Vec<u8>>) -> bool {
    &&& table.len() == NUM_ROTATIONS
    &&& forall|r: int|
        0 <= r < NUM_ROTATIONS ==> (#[trigger] table[r])@.len() == num_cells(d)
    &&& forall|r: int, i: int|
        0 <= r < NUM_ROTATIONS && 0 <= i < num_cells(d) ==> (#[trigger] table[r]@[i]) as int
            == rotate_cell(d, r, i)
}

/// Builds the cell permutation of each of the 24 rotations of a grid.
///
/// Row `r`, entry `i` is the cell that cell `i` lands on when the whole grid
/// is rotated by rotation `r` about its center.
pub fn build_rotation_table(dim: usize) -> (table: Vec<Vec<u8>>)
    requires
        0 < dim <= MAX_DIM,
    ensures
        is_rotation_table(dim as int, table@),
{
    proof {
        assert(dim * dim <= 16 && dim * dim * dim <= 64) by (nonlinear_arith)
            requires
                dim <= 4,
        ;
    }
    let grid_size = dim * dim * dim;
    let dim_m1 = dim as i32 - 1;
    let mut table: Vec<Vec<u8>> = Vec::new();
    let mut rot: usize = 0;
    while rot < NUM_ROTATIONS
        invariant
            0 < dim <= MAX_DIM,
            grid_size as int == num_cells(dim as int),
            grid_size <= 64,
            dim_m1 == dim - 1,
            rot <= NUM_ROTATIONS,
            table@.len() == rot,
            forall|r: int| 0 <= r < rot ==> (#[trigger] table@[r])@.len() == num_cells(dim as int),
            forall|r: int, i: int|
                0 <= r < rot && 0 <= i < num_cells(dim as int) ==> (#[trigger] table@[r]@[i]) as int
                    == rotate_cell(dim as int, r, i),
        decreases NUM_ROTATIONS - rot,
    {
        let mut row: Vec<u8> = Vec::new();
        let mut src: usize = 0;
        while src < grid_size
            invariant
                0 < dim <= MAX_DIM,
                grid_size as int == num_cells(dim as int),
                grid_size <= 64,
                dim_m1 == dim - 1,
                rot < NUM_ROTATIONS,
                src <= grid_size,
                row@.len() == src,
                forall|i: int| 0 <= i < src ==> (#[trigger] row@[i]) as int == rotate_cell(dim as int, rot as int, i),
            decreases grid_size - src,
        {
            let (x, y, z) = idx_to_coord(dim, src);
            // doubled centered coordinates: no half-integer center for even dimensions
            let cx = 2 * x - dim_m1;
            let cy = 2 * y - dim_m1;
            let cz = 2 * z - dim_m1;
            let (rx, ry, rz) = rotate(rot, (cx, cy, cz));
            proof {
                lemma_rotate_in_grid(dim as int, rot as int, (x as int, y as int, z as int));
            }
            // back from doubled coordinates to grid coordinates
            let dx = ((rx + dim_m1) / 2) as i32;
            let dy = ((ry + dim_m1) / 2) as i32;
            let dz = ((rz + dim_m1) / 2) as i32;
            let dest = coord_to_idx(dim, dx, dy, dz);
            row.push(dest as u8);
            src = src + 1;
        }
        table.push(row);
        rot = rot + 1;
    }
    table
}

/// Lexicographic order on keys; a proper prefix comes first.
pub open spec fn key_lt(a: Seq<u8>, b: Seq<u8>) -> bool
    decreases a.len(),
{
    if a.len() == 0 {
        b.len() > 0
    } else if b.len() == 0 {
        false
    } else {
        a[0] < b[0] || (a[0] == b[0] && key_lt(a.drop_first(), b.drop_first()))
    }
}

pub open spec fn key_le(a: Seq<u8>, b: Seq<u8>) -> bool {
    a == b || key_lt(a, b)
}

proof fn lemma_key_lt_irreflexive(a: Seq<u8>)
    ensures
        !key_lt(a, a),
    decreases a.len(),
{
    if a.len() > 0 {
        lemma_key_lt_irreflexive(a.drop_first());
    }
}

proof fn lemma_key_lt_transitive(a: Seq<u8>, b: Seq<u8>, c: Seq<u8>)
    requires
        key_lt(a, b),
        key_lt(b, c),
    ensures
        key_lt(a, c),
    decreases a.len(),
{
    if a.len() > 0 && b.len() > 0 && c.len() > 0 {
        if a[0] == b[0] && b[0] == c[0] {
            lemma_key_lt_transitive(a.drop_first(), b.drop_first(), c.drop_first());
        }
    }
}

proof fn lemma_key_lt_total(a: Seq<u8>, b: Seq<u8>)
    ensures
        a == b || key_lt(a, b) || key_lt(b, a),
    decreases a.len(),
{
    if a.len() > 0 && b.len() > 0 {
        lemma_key_lt_total(a.drop_first(), b.drop_first());
        if a[0] == b[0] && a.drop_first() == b.drop_first() {
            assert(a =~= seq![a[0]] + a.drop_first());
            assert(b =~= seq![b[0]] + b.drop_first());
        }
    } else if a.len() == 0 && b.len() == 0 {
        assert(a =~= b);
    }
}

/// `key_le` is a total order.
pub proof fn lemma_key_le_order(a: Seq<u8>, b: Seq<u8>, c: Seq<u8>)
    ensures
        key_le(a, b) || key_le(b, a),
        key_le(a, b) && key_le(b, a) ==> a == b,
        key_le(a, b) && key_le(b, c) ==> key_le(a, c),
        key_le(a, b) <==> !key_lt(b, a),
{
    lemma_key_lt_total(a, b);
    lemma_key_lt_irreflexive(a);
    lemma_key_lt_irreflexive(b);
    if key_lt(a, b) && key_lt(b, a) {
        lemma_key_lt_transitive(a, b, a);
    }
    if key_lt(a, b) && key_lt(b, c) {
        lemma_key_lt_transitive(a, b, c);
    }
}

/// Compares two keys in lexicographic order.
fn key_less(a: &Vec<u8>, b: &Vec<u8>) -> (r: bool)
    ensures
        r == key_lt(a@, b@),
{
    let mut i: usize = 0;
    assert(a@.subrange(0, a@.len() as int) =~= a@);
    assert(b@.subrange(0, b@.len() as int) =~= b@);
    while i < a.len() && i < b.len()
        invariant
            i <= a@.len(),
            i <= b@.len(),
            key_lt(a@, b@) == key_lt(a@.subrange(i as int, a@.len() as int), b@.subrange(i as int, b@.len() as int)),
        decreases a@.len() - i,
    {
        let ghost sa = a@.subrange(i as int, a@.len() as int);
        let ghost sb = b@.subrange(i as int, b@.len() as int);
        assert(sa[0] == a@[i as int] && sb[0] == b@[i as int]);
        if a[i] < b[i] {
            return true;
        }
        if a[i] > b[i] {
            return false;
        }
        assert(sa.drop_first() =~= a@.subrange(i as int + 1, a@.len() as int));
        assert(sb.drop_first() =~= b@.subrange(i as int + 1, b@.len() as int));
        i = i + 1;
    }
    i < b.len()
}

/// The key of a grid after rotation `r`: the value at each cell moves to
/// the cell that the rotation sends it to.
#[verifier::opaque]
pub open spec fn rotate_key(d: int, r: int, g: Seq<u8>) -> Seq<u8> {
    Seq::new(g.len(), |j: int| g[rotate_cell(d, inverse_rotation(r), j)])
}

/// The cell that mirrors cell `i` across the plane through the center
/// perpendicular to the x axis.
pub open spec fn mirror_cell(d: int, i: int) -> int {
    let p = coord_of(d, i);
    cell_of(d, d - 1 - p.0, p.1, p.2)
}

/// The key of a grid reflected across the x axis.
#[verifier::opaque]
pub open spec fn reflect_key(d: int, g: Seq<u8>) -> Seq<u8> {
    Seq::new(g.len(), |i: int| g[mirror_cell(d, i)])
}

/// The key with the ids of pieces `a` and `b` (stored as index + 1) swapped.
#[verifier::opaque]
pub open spec fn swap_ids(g: Seq<u8>, a: int, b: int) -> Seq<u8> {
    g.map_values(
        |v: u8|
            if v as int == a + 1 {
                (b + 1) as u8
            } else if v as int == b + 1 {
                (a + 1) as u8
            } else {
                v
            },
    )
}

/// The reflected key, with the chiral pair's ids swapped when there is one.
pub open spec fn mirror_key(d: int, chiral_pair: Option<(usize, usize)>, g: Seq<u8>) -> Seq<u8> {
    match chiral_pair {
        Some(p) => swap_ids(reflect_key(d, g), p.0 as int, p.1 as int),
        None => reflect_key(d, g),
    }
}

/// How many symmetry images a grid has: its 24 rotations, and when the
/// puzzle declares a chiral pair, the 24 rotations of its mirror image too.
pub open spec fn num_images(chiral_pair: Option<(usize, usize)>) -> int {
    if chiral_pair is Some {
        2 * NUM_ROTATIONS
    } else {
        NUM_ROTATIONS as int
    }
}

/// Symmetry `k` of the grid's key: rotations `0..24` of the key itself, then
/// (with a chiral pair) rotations `24..48` of its mirror image.
pub open spec fn symmetry_image(d: int, chiral_pair: Option<(usize, usize)>, g: Seq<u8>, k: int) -> Seq<u8> {
    if k < NUM_ROTATIONS {
        rotate_key(d, k, g)
    } else {
        rotate_key(d, k - NUM_ROTATIONS, mirror_key(d, chiral_pair, g))
    }
}

/// `key` is one of the symmetry images of `g`, and no image is smaller.
pub open spec fn is_least_image(d: int, chiral_pair: Option<(usize, usize)>, g: Seq<u8>, key: Seq<u8>) -> bool {
    &&& exists|k: int| 0 <= k < num_images(chiral_pair) && key == #[trigger] symmetry_image(d, chiral_pair, g, k)
    &&& forall|k: int|
        0 <= k < num_images(chiral_pair) ==> key_le(key, #[trigger] symmetry_image(d, chiral_pair, g, k))
}

/// The canonical form of a grid: its smallest symmetry image.
pub open spec fn canonical_form(d: int, chiral_pair: Option<(usize, usize)>, g: Seq<u8>) -> Seq<u8> {
    choose|key: Seq<u8>| is_least_image(d, chiral_pair, g, key)
}

/// There is at most one smallest symmetry image, so a key that is one is
/// the canonical form.
pub proof fn lemma_least_image_is_canonical(
    d: int,
    chiral_pair: Option<(usize, usize)>,
    g: Seq<u8>,
    key: Seq<u8>,
)
    requires
        is_least_image(d, chiral_pair, g, key),
    ensures
        canonical_form(d, chiral_pair, g) == key,
{
    let c = canonical_form(d, chiral_pair, g);
    assert(is_least_image(d, chiral_pair, g, c));
    let k1 = choose|k: int| 0 <= k < num_images(chiral_pair) && key == #[trigger] symmetry_image(d, chiral_pair, g, k);
    let k2 = choose|k: int| 0 <= k < num_images(chiral_pair) && c == #[trigger] symmetry_image(d, chiral_pair, g, k);
    assert(key_le(key, symmetry_image(d, chiral_pair, g, k2)));
    assert(key_le(c, symmetry_image(d, chiral_pair, g, k1)));
    lemma_key_le_order(key, c, key);
}

/// Moves each cell's value to the cell that rotation `rot` sends it to.
fn apply_rotation(dim: usize, table: &Vec<Vec<u8>>, rot: usize, key: &Vec<u8>) -> (rotated: Vec<u8>)
    requires
        0 < dim <= MAX_DIM,
        rot < NUM_ROTATIONS,
        is_rotation_table(dim as int, table@),
        key@.len() == num_cells(dim as int),
    ensures
        rotated@ == rotate_key(dim as int, rot as int, key@),
{
    let ghost d = dim as int;
    let n = key.len();
    let row = &table[rot];
    let mut rotated: Vec<u8> = Vec::new();
    while rotated.len() < n
        invariant
            rotated@.len() <= n,
        decreases n - rotated@.len(),
    {
        rotated.push(0u8);
    }
    proof {
        lemma_rotation_is_permutation(d, rot as int);
    }
    let mut src: usize = 0;
    while src < n
        invariant
            0 < dim <= MAX_DIM,
            rot < NUM_ROTATIONS,
            n == num_cells(d),
            d == dim as int,
            n == key@.len(),
            rotated@.len() == n,
            row@.len() == n,
            src <= n,
            forall|i: int| 0 <= i < n ==> (#[trigger] row@[i]) as int == rotate_cell(d, rot as int, i),
            forall|i: int| 0 <= i < num_cells(d) ==> 0 <= #[trigger] rotate_cell(d, rot as int, i) < num_cells(d),
            forall|i: int, j: int|
                0 <= i < num_cells(d) && 0 <= j < num_cells(d) && #[trigger] rotate_cell(d, rot as int, i)
                    == #[trigger] rotate_cell(d, rot as int, j) ==> i == j,
            forall|i: int| 0 <= i < src ==> rotated@[#[trigger] rotate_cell(d, rot as int, i)] == key@[i],
        decreases n - src,
    {
        let dest = row[src] as usize;
        rotated.set(dest, key[src]);
        assert forall|i: int| 0 <= i < src + 1 implies rotated@[#[trigger] rotate_cell(d, rot as int, i)] == key@[i] by {
            if i < src {
                assert(rotate_cell(d, rot as int, i) != rotate_cell(d, rot as int, src as int));
            }
        }
        src = src + 1;
    }
    proof {
        reveal(rotate_key);
        lemma_rotation_is_permutation(d, rot as int);
        assert forall|j: int| 0 <= j < n implies rotated@[j] == rotate_key(d, rot as int, key@)[j] by {
            let s = rotate_cell(d, inverse_rotation(rot as int), j);
            assert(rotate_cell(d, rot as int, s) == j);
            assert(rotated@[rotate_cell(d, rot as int, s)] == key@[s]);
        }
    }
    assert(rotated@ =~= rotate_key(dim as int, rot as int, key@));
    rotated
}

/// `key` is a rotation of `g`, and no rotation of `g` is smaller.
pub open spec fn is_least_rotation(d: int, g: Seq<u8>, key: Seq<u8>) -> bool {
    &&& exists|k: int| 0 <= k < NUM_ROTATIONS && key == #[trigger] rotate_key(d, k, g)
    &&& forall|k: int| 0 <= k < NUM_ROTATIONS ==> key_le(key, #[trigger] rotate_key(d, k, g))
}

/// Finds the lexicographically smallest rotation of a grid key.
fn find_smallest_rotation(dim: usize, table: &Vec<Vec<u8>>, key: &Vec<u8>) -> (smallest: Vec<u8>)
    requires
        0 < dim <= MAX_DIM,
        is_rotation_table(dim as int, table@),
        key@.len() == num_cells(dim as int),
    ensures
        is_least_rotation(dim as int, key@, smallest@),
        smallest@.len() == key@.len(),
{
    let ghost d = dim as int;
    proof {
        reveal(rotate_key);
        lemma_rotation_is_permutation(d, 0);
        assert(rotate_key(d, 0, key@) =~= key@);
    }
    let mut smallest = apply_rotation(dim, table, 0, key);
    let ghost mut best: int = 0;
    // the identity is rotation 0; try the others
    let mut rot: usize = 1;
    while rot < NUM_ROTATIONS
        invariant
            0 < dim <= MAX_DIM,
            d == dim as int,
            is_rotation_table(d, table@),
            key@.len() == num_cells(d),
            1 <= rot <= NUM_ROTATIONS,
            0 <= best < rot,
            smallest@ == rotate_key(d, best, key@),
            forall|k: int| 0 <= k < rot ==> key_le(smallest@, #[trigger] rotate_key(d, k, key@)),
        decreases NUM_ROTATIONS - rot,
    {
        let rotated = apply_rotation(dim, table, rot, key);
        if key_less(&rotated, &smallest) {
            proof {
                assert forall|k: int| 0 <= k < rot + 1 implies key_le(rotated@, #[trigger] rotate_key(d, k, key@)) by {
                    if k < rot {
                        lemma_key_le_order(rotated@, smallest@, rotate_key(d, k, key@));
                    }
                }
            }
            smallest = rotated;
            proof {
                best = rot as int;
            }
        } else {
            proof {
                lemma_key_le_order(smallest@, rotated@, smallest@);
            }
        }
        rot = rot + 1;
    }
    assert(smallest@ == rotate_key(d, best, key@));
    smallest
}

/// Reflects a grid key across the x axis.
fn reflect_key_x(dim: usize, key: &Vec<u8>) -> (reflected: Vec<u8>)
    requires
        0 < dim <= MAX_DIM,
        key@.len() == num_cells(dim as int),
    ensures
        reflected@ == reflect_key(dim as int, key@),
        reflected@.len() == key@.len(),
{
    let ghost d = dim as int;
    let n = key.len();
    let mut reflected: Vec<u8> = Vec::new();
    let mut dest: usize = 0;
    while dest < n
        invariant
            0 < dim <= MAX_DIM,
            d == dim as int,
            n == key@.len(),
            n == num_cells(d),
            dest <= n,
            reflected@.len() == dest,
            forall|i: int| 0 <= i < dest ==> #[trigger] reflected@[i] == key@[mirror_cell(d, i)],
        decreases n - dest,
    {
        let (x, y, z) = idx_to_coord(dim, dest);
        let source = coord_to_idx(dim, dim as i32 - 1 - x, y, z);
        reflected.push(key[source]);
        dest = dest + 1;
    }
    proof {
        reveal(reflect_key);
    }
    assert(reflected@ =~= reflect_key(dim as int, key@));
    reflected
}

/// Swaps the ids of a chiral pair of pieces in a grid key.
fn swap_chiral_in_key(key: &Vec<u8>, chiral_pair: (usize, usize)) -> (swapped: Vec<u8>)
    requires
        chiral_pair.0 < 255,
        chiral_pair.1 < 255,
    ensures
        swapped@ == swap_ids(key@, chiral_pair.0 as int, chiral_pair.1 as int),
        swapped@.len() == key@.len(),
{
    proof {
        reveal(swap_ids);
    }
    let first = (chiral_pair.0 + 1) as u8;
    let second = (chiral_pair.1 + 1) as u8;
    let mut swapped: Vec<u8> = Vec::new();
    let mut i: usize = 0;
    while i < key.len()
        invariant
            first as int == chiral_pair.0 + 1,
            second as int == chiral_pair.1 + 1,
            i <= key@.len(),
            swapped@ =~= swap_ids(key@, chiral_pair.0 as int, chiral_pair.1 as int).subrange(0, i as int),
        decreases key@.len() - i,
    {
        proof {
            reveal(swap_ids);
        }
        let cell = key[i];
        let v = if cell == first {
            second
        } else if cell == second {
            first
        } else {
            cell
        };
        swapped.push(v);
        i = i + 1;
    }
    swapped
}

proof fn lemma_key_le_trans(a: Seq<u8>, b: Seq<u8>, c: Seq<u8>)
    requires
        key_le(a, b),
        key_le(b, c),
    ensures
        key_le(a, c),
{
    lemma_key_le_order(a, b, c);
}

/// A key no larger than the least rotation of `g` is no larger than any
/// rotation of `g`.
proof fn lemma_below_least_rotation(d: int, g: Seq<u8>, least: Seq<u8>, c: Seq<u8>)
    requires
        is_least_rotation(d, g, least),
        key_le(c, least),
    ensures
        forall|k: int| 0 <= k < NUM_ROTATIONS ==> key_le(c, #[trigger] rotate_key(d, k, g)),
{
    assert forall|k: int| 0 <= k < NUM_ROTATIONS implies key_le(c, #[trigger] rotate_key(d, k, g)) by {
        lemma_key_le_trans(c, least, rotate_key(d, k, g));
    }
}

/// The smaller of the least rotation of a grid and the least rotation of its
/// mirror image is its least symmetry image.
proof fn lemma_least_of_both(
    d: int,
    chiral_pair: Option<(usize, usize)>,
    g: Seq<u8>,
    a: Seq<u8>,
    b: Seq<u8>,
)
    requires
        chiral_pair is Some,
        is_least_rotation(d, g, a),
        is_least_rotation(d, mirror_key(d, chiral_pair, g), b),
    ensures
        is_least_image(d, chiral_pair, g, if key_lt(b, a) { b } else { a }),
{
    let m = mirror_key(d, chiral_pair, g);
    let c = if key_lt(b, a) { b } else { a };
    lemma_key_le_order(a, b, a);
    if key_lt(b, a) {
        lemma_below_least_rotation(d, g, a, b);
        lemma_below_least_rotation(d, m, b, b);
    } else {
        lemma_below_least_rotation(d, g, a, a);
        lemma_below_least_rotation(d, m, b, a);
    }
    assert forall|k: int| 0 <= k < num_images(chiral_pair) implies key_le(c, #[trigger] symmetry_image(d, chiral_pair, g, k)) by {
        if k < NUM_ROTATIONS {
            assert(key_le(c, rotate_key(d, k, g)));
        } else {
            assert(key_le(c, rotate_key(d, k - NUM_ROTATIONS, m)));
        }
    }
    let k1 = choose|k: int| 0 <= k < NUM_ROTATIONS && a == #[trigger] rotate_key(d, k, g);
    let k2 = choose|k: int| 0 <= k < NUM_ROTATIONS && b == #[trigger] rotate_key(d, k, m);
    assert(a == symmetry_image(d, chiral_pair, g, k1));
    assert(b == symmetry_image(d, chiral_pair, g, k2 + NUM_ROTATIONS));
}

/// Without a chiral pair, the least rotation is the least symmetry image.
proof fn lemma_least_rotation_is_least_image(d: int, g: Seq<u8>, a: Seq<u8>)
    requires
        is_least_rotation(d, g, a),
    ensures
        is_least_image(d, None, g, a),
{
    let k1 = choose|k: int| 0 <= k < NUM_ROTATIONS && a == #[trigger] rotate_key(d, k, g);
    assert(a == symmetry_image(d, None, g, k1));
    assert forall|k: int| 0 <= k < num_images(None) implies key_le(a, #[trigger] symmetry_image(d, None, g, k)) by {
        assert(key_le(a, rotate_key(d, k, g)));
    }
}

/// Finds the smallest key among the rotations of the grid and, when the
/// puzzle declares a chiral pair, the rotations of its mirror image with the
/// pair's ids swapped.
fn find_smallest_rotation_with_reflection(
    dim: usize,
    table: &Vec<Vec<u8>>,
    key: &Vec<u8>,
    chiral_pair: Option<(usize, usize)>,
) -> (smallest: Vec<u8>)
    requires
        0 < dim <= MAX_DIM,
        is_rotation_table(dim as int, table@),
        key@.len() == num_cells(dim as int),
        chiral_pair matches Some(p) ==> p.0 < 255 && p.1 < 255,
    ensures
        smallest@ == canonical_form(dim as int, chiral_pair, key@),
{
    let ghost d = dim as int;
    let ghost g = key@;
    let mut smallest = find_smallest_rotation(dim, table, key);
    let ghost old_smallest = smallest;
    if let Some(pair) = chiral_pair {
        // compare the grid's own rotations with those of its mirror image,
        // where mirrored chiral pieces look like their twins
        let reflected = reflect_key_x(dim, key);
        let reflected = swap_chiral_in_key(&reflected, pair);
        assert(reflected@ == mirror_key(d, chiral_pair, g));
        let reflected_smallest = find_smallest_rotation(dim, table, &reflected);
        if key_less(&reflected_smallest, &smallest) {
            smallest = reflected_smallest;
        }
        proof {
            lemma_least_of_both(d, chiral_pair, g, old_smallest@, reflected_smallest@);
        }
    } else {
        proof {
            lemma_least_rotation_is_least_image(d, g, smallest@);
        }
    }
    proof {
        lemma_least_image_is_canonical(d, chiral_pair, g, smallest@);
    }
    smallest
}

/// Cube `c` lies inside the grid.
pub open spec fn coord_in_grid(d: int, c: Coord) -> bool {
    in_grid(d, (c.0 as int, c.1 as int, c.2 as int))
}

/// Index of the cell holding cube `c`.
pub open spec fn cell_of_coord(d: int, c: Coord) -> int {
    cell_of(d, c.0 as int, c.1 as int, c.2 as int)
}

/// A placed piece whose cubes lie in the grid, with an id that fits a byte.
pub open spec fn fits_grid(d: int, p: PlacedPiece) -> bool {
    &&& p.cube_count <= MAX_CUBES
    &&& p.piece_index < 255
    &&& forall|j: int| 0 <= j < p.cube_count ==> coord_in_grid(d, #[trigger] p.positions@[j])
}

/// Every piece of the solution fits the grid.
pub open spec fn solution_fits_grid(d: int, solution: Seq<PlacedPiece>) -> bool {
    forall|k: int| 0 <= k < solution.len() ==> fits_grid(d, #[trigger] solution[k])
}

/// `g` with value `v` written, in order, at the cells of `cubes` (cells
/// outside `g` are skipped).
pub open spec fn paint(d: int, g: Seq<u8>, cubes: Seq<Coord>, v: u8) -> Seq<u8>
    decreases cubes.len(),
{
    if cubes.len() == 0 {
        g
    } else {
        let h = paint(d, g, cubes.drop_last(), v);
        let i = cell_of_coord(d, cubes.last());
        if 0 <= i < h.len() {
            h.update(i, v)
        } else {
            h
        }
    }
}

/// The grid of a solution: each cell holds the number (index + 1) of the
/// last piece placed on it, or 0 when no piece covers it.
pub open spec fn grid_of(d: int, solution: Seq<PlacedPiece>) -> Seq<u8>
    decreases solution.len(),
{
    if solution.len() == 0 {
        Seq::new(num_cells(d) as nat, |i: int| 0u8)
    } else {
        let p = solution.last();
        paint(d, grid_of(d, solution.drop_last()), p.cubes_view(), (p.piece_index + 1) as u8)
    }
}

pub proof fn lemma_paint_len(d: int, g: Seq<u8>, cubes: Seq<Coord>, v: u8)
    ensures
        paint(d, g, cubes, v).len() == g.len(),
    decreases cubes.len(),
{
    if cubes.len() > 0 {
        lemma_paint_len(d, g, cubes.drop_last(), v);
    }
}

/// The grid of a solution has one entry per cell.
pub proof fn lemma_grid_of_len(d: int, solution: Seq<PlacedPiece>)
    requires
        0 <= d,
    ensures
        grid_of(d, solution).len() == num_cells(d),
    decreases solution.len(),
{
    if solution.len() > 0 {
        lemma_grid_of_len(d, solution.drop_last());
        let p = solution.last();
        lemma_paint_len(d, grid_of(d, solution.drop_last()), p.cubes_view(), (p.piece_index + 1) as u8);
    } else {
        assert(0 <= num_cells(d)) by (nonlinear_arith)
            requires
                0 <= d,
        ;
    }
}

/// Converts a solution to a flat grid of piece numbers (index + 1, 0 for
/// empty).
pub fn solution_to_grid(dim: usize, solution: &[PlacedPiece]) -> (grid: Vec<u8>)
    requires
        0 < dim <= MAX_DIM,
        solution_fits_grid(dim as int, solution@),
    ensures
        grid@ == grid_of(dim as int, solution@),
        grid@.len() == num_cells(dim as int),
{
    let ghost d = dim as int;
    proof {
        assert(dim * dim <= 16 && dim * dim * dim <= 64) by (nonlinear_arith)
            requires
                dim <= 4,
        ;
    }
    let n = dim * dim * dim;
    let mut grid: Vec<u8> = Vec::new();
    while grid.len() < n
        invariant
            grid@.len() <= n,
            forall|i: int| 0 <= i < grid@.len() ==> #[trigger] grid@[i] == 0u8,
        decreases n - grid@.len(),
    {
        grid.push(0u8);
    }
    assert(grid@ =~= grid_of(d, solution@.subrange(0, 0)));
    let mut k: usize = 0;
    while k < solution.len()
        invariant
            0 < dim <= MAX_DIM,
            d == dim as int,
            n == num_cells(d),
            k <= solution@.len(),
            solution_fits_grid(d, solution@),
            grid@ == grid_of(d, solution@.subrange(0, k as int)),
            grid@.len() == n,
        decreases solution@.len() - k,
    {
        let placed = solution[k];
        assert(fits_grid(d, solution@[k as int]));
        let piece_number = (placed.piece_index + 1) as u8;
        let ghost base = grid@;
        let count = placed.cube_count as usize;
        let mut j: usize = 0;
        assert(placed.cubes_view().subrange(0, 0) =~= Seq::<Coord>::empty());
        while j < count
            invariant
                0 < dim <= MAX_DIM,
                d == dim as int,
                n == num_cells(d),
                fits_grid(d, placed),
                count == placed.cube_count,
                j <= count,
                grid@ == paint(d, base, placed.cubes_view().subrange(0, j as int), piece_number),
                grid@.len() == n,
            decreases count - j,
        {
            let (x, y, z) = placed.positions[j];
            assert(coord_in_grid(d, placed.positions@[j as int]));
            let cell = coord_to_idx(dim, x, y, z);
            proof {
                lemma_paint_len(d, base, placed.cubes_view().subrange(0, j as int), piece_number);
            }
            grid.set(cell, piece_number);
            proof {
                let c = placed.cubes_view().subrange(0, j as int + 1);
                assert(c.drop_last() =~= placed.cubes_view().subrange(0, j as int));
                assert(c.last() == placed.positions@[j as int]);
            }
            j = j + 1;
        }
        proof {
            assert(placed.cubes_view().subrange(0, count as int) =~= placed.cubes_view());
            let pre = solution@.subrange(0, k as int + 1);
            assert(pre.drop_last() =~= solution@.subrange(0, k as int));
            assert(pre.last() == placed);
        }
        k = k + 1;
    }
    assert(solution@.subrange(0, solution@.len() as int) =~= solution@);
    grid
}

/// Computes the canonical form of a solution under the cube's rotations and,
/// when a chiral pair is given, its reflection.
///
/// A reflection turns each piece of the chiral pair into its twin, so the
/// reflected grid has the pair's ids swapped before it is compared.
pub fn canonical_key(
    dim: usize,
    solution: &[PlacedPiece],
    chiral_pair: Option<(usize, usize)>,
) -> (key: Vec<u8>)
    requires
        0 < dim <= MAX_DIM,
        solution_fits_grid(dim as int, solution@),
        chiral_pair matches Some(p) ==> p.0 < 255 && p.1 < 255,
    ensures
        key@ == canonical_form(dim as int, chiral_pair, grid_of(dim as int, solution@)),
{
    let table = build_rotation_table(dim);
    canonical_key_with(dim, &table, solution, chiral_pair)
}

/// `canonical_key` with a rotation table built beforehand.
pub(crate) fn canonical_key_with(
    dim: usize,
    table: &Vec<Vec<u8>>,
    solution: &[PlacedPiece],
    chiral_pair: Option<(usize, usize)>,
) -> (key: Vec<u8>)
    requires
        0 < dim <= MAX_DIM,
        is_rotation_table(dim as int, table@),
        solution_fits_grid(dim as int, solution@),
        chiral_pair matches Some(p) ==> p.0 < 255 && p.1 < 255,
    ensures
        key@ == canonical_form(dim as int, chiral_pair, grid_of(dim as int, solution@)),
{
    let grid_key = solution_to_grid(dim, solution);
    find_smallest_rotation_with_reflection(dim, table, &grid_key, chiral_pair)
}

/// The character shown for a piece number: `.` for empty, then `1`-`9`,
/// then letters.
pub open spec fn piece_char(v: u8) -> char {
    if v == 0 {
        '.'
    } else if v < 10 {
        ((48 + v) as u8) as char
    } else {
        ((55 + v) as u8) as char
    }
}

/// Two spaces before every slice but the first.
pub open spec fn separator(z: int) -> Seq<char> {
    if z > 0 { seq![' ', ' '] } else { Seq::empty() }
}

/// The header naming the first `k` z-slices, each label `z=<z>` padded to
/// the width of a slice.
pub open spec fn header_text(d: int, k: int) -> Seq<char>
    decreases k,
{
    if k <= 0 {
        Seq::empty()
    } else {
        header_text(d, k - 1) + separator(k - 1) + seq!['z', '=', ((48 + k - 1) as u8) as char]
            + Seq::new((d - 1) as nat, |i: int| ' ')
    }
}

/// Row `y` of the first `k` z-slices, x increasing left to right.
pub open spec fn row_text(d: int, g: Seq<u8>, y: int, k: int) -> Seq<char>
    decreases k,
{
    if k <= 0 {
        Seq::empty()
    } else {
        row_text(d, g, y, k - 1) + separator(k - 1) + Seq::new(
            d as nat,
            |x: int| piece_char(g[cell_of(d, x, y, k - 1)]),
        )
    }
}

/// The first `k` rows, from `y = d - 1` downwards, each ending a line.
pub open spec fn rows_text(d: int, g: Seq<u8>, k: int) -> Seq<char>
    decreases k,
{
    if k <= 0 {
        Seq::empty()
    } else {
        rows_text(d, g, k - 1) + row_text(d, g, d - k, d) + seq!['\n']
    }
}

/// The text of a grid: a header line, then one line per row.
pub open spec fn grid_text(d: int, g: Seq<u8>) -> Seq<char> {
    header_text(d, d) + seq!['\n'] + rows_text(d, g, d)
}

/// Relies on `String::push_str`: appends the text.
#[verifier::external_body]
pub(crate) fn push_str(s: &mut String, t: &str)
    ensures
        final(s)@ == old(s)@ + t@,
{
    s.push_str(t);
}

/// Relies on `String::push`: appends one character.
#[verifier::external_body]
pub(crate) fn push_char(s: &mut String, c: char)
    ensures
        final(s)@ == old(s)@.push(c),
{
    s.push(c);
}

/// Appends the separator that goes before slice `z`.
fn push_separator(out: &mut String, z: usize)
    ensures
        final(out)@ == old(out)@ + separator(z as int),
{
    if z > 0 {
        push_char(out, ' ');
        push_char(out, ' ');
        assert(final(out)@ =~= old(out)@ + separator(z as int));
    } else {
        assert(old(out)@ =~= old(out)@ + separator(z as int));
    }
}

/// The character shown for a piece number.
fn piece_char_of(v: u8) -> (c: char)
    requires
        v < 200,
    ensures
        c == piece_char(v),
{
    if v == 0 {
        '.'
    } else if v < 10 {
        (48u8 + v) as char
    } else {
        (55u8 + v) as char
    }
}

/// Formats a solution as text: the z-slices side by side, rows from top
/// (`y = d - 1`) to bottom, one character per cell (`.` for empty).
pub fn format_solution(dim: usize, solution: &[PlacedPiece]) -> (text: String)
    requires
        0 < dim <= MAX_DIM,
        solution_fits_grid(dim as int, solution@),
        forall|k: int| 0 <= k < solution@.len() ==> (#[trigger] solution@[k]).piece_index < MAX_PIECES,
    ensures
        text@ == grid_text(dim as int, grid_of(dim as int, solution@)),
{
    let ghost d = dim as int;
    let grid = solution_to_grid(dim, solution);
    let ghost g = grid@;
    proof {
        lemma_grid_values(d, solution@);
    }
    let mut output = String::new();
    let mut z: usize = 0;
    while z < dim
        invariant
            0 < dim <= MAX_DIM,
            d == dim as int,
            z <= dim,
            output@ == header_text(d, z as int),
        decreases dim - z,
    {
        push_separator(&mut output, z);
        push_char(&mut output, 'z');
        push_char(&mut output, '=');
        push_char(&mut output, (48u8 + z as u8) as char);
        let ghost before = output@;
        let mut pad: usize = 1;
        while pad < dim
            invariant
                1 <= pad <= dim,
                output@ == before + Seq::new((pad - 1) as nat, |i: int| ' '),
            decreases dim - pad,
        {
            push_char(&mut output, ' ');
            assert(output@ =~= before + Seq::new(pad as nat, |i: int| ' '));
            pad = pad + 1;
        }
        assert(output@ =~= header_text(d, z as int + 1));
        z = z + 1;
    }
    push_char(&mut output, '\n');
    let ghost head = output@;
    assert(head =~= header_text(d, d) + seq!['\n'] + rows_text(d, g, 0));
    let mut done: usize = 0;
    while done < dim
        invariant
            0 < dim <= MAX_DIM,
            d == dim as int,
            done <= dim,
            g.len() == num_cells(d),
            forall|i: int| 0 <= i < g.len() ==> #[trigger] g[i] < 34,
            grid@ == g,
            head == header_text(d, d) + seq!['\n'],
            output@ == head + rows_text(d, g, done as int),
        decreases dim - done,
    {
        let y = dim - 1 - done;
        let ghost line_start = output@;
        let mut z: usize = 0;
        while z < dim
            invariant
                0 < dim <= MAX_DIM,
                d == dim as int,
                y < dim,
                z <= dim,
                g.len() == num_cells(d),
                forall|i: int| 0 <= i < g.len() ==> #[trigger] g[i] < 34,
                grid@ == g,
                output@ == line_start + row_text(d, g, y as int, z as int),
            decreases dim - z,
        {
            push_separator(&mut output, z);
            let ghost slice_start = output@;
            let mut x: usize = 0;
            while x < dim
                invariant
                    0 < dim <= MAX_DIM,
                    d == dim as int,
                    y < dim,
                    z < dim,
                    x <= dim,
                    g.len() == num_cells(d),
                    forall|i: int| 0 <= i < g.len() ==> #[trigger] g[i] < 34,
                    grid@ == g,
                    output@ == slice_start + Seq::new(x as nat, |x: int| piece_char(g[cell_of(d, x, y as int, z as int)])),
                decreases dim - x,
            {
                let cell = coord_to_idx(dim, x as i32, y as i32, z as i32);
                let c = piece_char_of(grid[cell]);
                push_char(&mut output, c);
                assert(output@ =~= slice_start + Seq::new((x + 1) as nat, |x: int| piece_char(g[cell_of(d, x, y as int, z as int)])));
                x = x + 1;
            }
            assert(output@ =~= line_start + row_text(d, g, y as int, z as int + 1));
            z = z + 1;
        }
        push_char(&mut output, '\n');
        assert(d - (done as int + 1) == y as int);
        assert(output@ =~= head + rows_text(d, g, done as int + 1));
        done = done + 1;
    }
    output
}

/// In a grid of pieces numbered below 33, every cell holds less than 34.
proof fn lemma_grid_values(d: int, solution: Seq<PlacedPiece>)
    requires
        forall|k: int| 0 <= k < solution.len() ==> (#[trigger] solution[k]).piece_index < MAX_PIECES,
    ensures
        forall|i: int| 0 <= i < grid_of(d, solution).len() ==> #[trigger] grid_of(d, solution)[i] < 34,
    decreases solution.len(),
{
    if solution.len() > 0 {
        let p = solution.last();
        lemma_grid_values(d, solution.drop_last());
        lemma_paint_values(d, grid_of(d, solution.drop_last()), p.cubes_view(), (p.piece_index + 1) as u8);
    }
}

proof fn lemma_paint_values(d: int, g: Seq<u8>, cubes: Seq<Coord>, v: u8)
    requires
        v < 34,
        forall|i: int| 0 <= i < g.len() ==> #[trigger] g[i] < 34,
    ensures
        forall|i: int| 0 <= i < paint(d, g, cubes, v).len() ==> #[trigger] paint(d, g, cubes, v)[i] < 34,
    decreases cubes.len(),
{
    if cubes.len() > 0 {
        lemma_paint_values(d, g, cubes.drop_last(), v);
        let h = paint(d, g, cubes.drop_last(), v);
        let c = cell_of_coord(d, cubes.last());
        assert forall|i: int| 0 <= i < paint(d, g, cubes, v).len() implies #[trigger] paint(d, g, cubes, v)[i] < 34 by {
            if 0 <= c < h.len() {
                assert(paint(d, g, cubes, v) == h.update(c, v));
            } else {
                assert(paint(d, g, cubes, v) == h);
            }
        }
    }
}

impl Puzzle {
    /// Computes the canonical key of a solution, using this puzzle's
    /// dimension and chiral pair.
    pub fn canonical_key(&self, solution: &[PlacedPiece]) -> (key: Vec<u8>)
        requires
            self.wf(),
            solution_fits_grid(self.dim as int, solution@),
        ensures
            key@ == canonical_form(self.dim as int, self.chiral_pair, grid_of(self.dim as int, solution@)),
    {
        proof {
            self.lemma_wf_pieces();
        }
        canonical_key(self.dim, solution, self.chiral_pair)
    }
}

} // verus!
