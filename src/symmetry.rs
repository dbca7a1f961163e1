//! Laws of the canonical key: it does not change when a solution is
//! replaced by one of its symmetric images.

use vstd::prelude::*;

use crate::geometry::{rotate_point, Point, NUM_ROTATIONS};
use crate::grid::{
    num_images,
    canonical_form, cell_of_coord, coord_in_grid, coord_of, fits_grid, grid_of,
    in_grid, is_least_image, key_le, key_lt, lemma_cell_of_coord, lemma_coord_of_cell,
    lemma_grid_of_len, lemma_key_le_order, lemma_least_image_is_canonical, lemma_paint_len, mirror_cell,
    mirror_key, num_cells, paint, reflect_key, rotate_key, solution_fits_grid, swap_ids,
    symmetry_image, MAX_DIM, inverse_rotation, lemma_half,
    lemma_inverse_rotation, lemma_rotate_cell, lemma_rotate_in_grid, lemma_rotation_is_permutation,
    rotate_cell, rotate_in_grid,
};
use crate::pieces::{Coord, PlacedPiece};

verus! {

/// The smallest of symmetry images `0..n` of `g`.
spec fn least_of_first(d: int, chiral_pair: Option<(usize, usize)>, g: Seq<u8>, n: int) -> Seq<u8>
    decreases n,
{
    if n <= 1 {
        symmetry_image(d, chiral_pair, g, 0)
    } else {
        let m = least_of_first(d, chiral_pair, g, n - 1);
        let k = symmetry_image(d, chiral_pair, g, n - 1);
        if key_lt(k, m) {
            k
        } else {
            m
        }
    }
}

proof fn lemma_least_of_first(d: int, chiral_pair: Option<(usize, usize)>, g: Seq<u8>, n: int)
    requires
        1 <= n,
    ensures
        exists|k: int| 0 <= k < n && least_of_first(d, chiral_pair, g, n) == #[trigger] symmetry_image(d, chiral_pair, g, k),
        forall|k: int| 0 <= k < n ==> key_le(least_of_first(d, chiral_pair, g, n), #[trigger] symmetry_image(d, chiral_pair, g, k)),
    decreases n,
{
    if n > 1 {
        lemma_least_of_first(d, chiral_pair, g, n - 1);
        let m = least_of_first(d, chiral_pair, g, n - 1);
        let last = symmetry_image(d, chiral_pair, g, n - 1);
        let c = least_of_first(d, chiral_pair, g, n);
        lemma_key_le_order(last, m, last);
        assert forall|k: int| 0 <= k < n implies key_le(c, #[trigger] symmetry_image(d, chiral_pair, g, k)) by {
            if k < n - 1 {
                lemma_key_le_order(c, m, symmetry_image(d, chiral_pair, g, k));
            } else {
                lemma_key_le_order(c, last, c);
            }
        }
        if key_lt(last, m) {
            assert(c == symmetry_image(d, chiral_pair, g, n - 1));
        } else {
            let w = choose|k: int| 0 <= k < n - 1 && m == #[trigger] symmetry_image(d, chiral_pair, g, k);
            assert(c == symmetry_image(d, chiral_pair, g, w));
        }
    } else {
        assert(least_of_first(d, chiral_pair, g, n) == symmetry_image(d, chiral_pair, g, 0));
        lemma_key_le_order(symmetry_image(d, chiral_pair, g, 0), symmetry_image(d, chiral_pair, g, 0), symmetry_image(d, chiral_pair, g, 0));
    }
}

/// Every grid has a least symmetry image, and it is the canonical form.
pub proof fn lemma_canonical_is_least(d: int, chiral_pair: Option<(usize, usize)>, g: Seq<u8>)
    ensures
        is_least_image(d, chiral_pair, g, canonical_form(d, chiral_pair, g)),
{
    let c = least_of_first(d, chiral_pair, g, num_images(chiral_pair));
    lemma_least_of_first(d, chiral_pair, g, num_images(chiral_pair));
    assert(is_least_image(d, chiral_pair, g, c));
    lemma_least_image_is_canonical(d, chiral_pair, g, c);
}

/// `x` is one of the symmetry images of `g`.
spec fn is_image(d: int, chiral_pair: Option<(usize, usize)>, g: Seq<u8>, x: Seq<u8>) -> bool {
    exists|j: int| 0 <= j < num_images(chiral_pair) && x == #[trigger] symmetry_image(d, chiral_pair, g, j)
}

/// Two grids whose symmetry images are the same set have the same
/// canonical form.
proof fn lemma_same_images_same_form(
    d: int,
    chiral_pair: Option<(usize, usize)>,
    g: Seq<u8>,
    h: Seq<u8>,
)
    requires
        forall|k: int| 0 <= k < num_images(chiral_pair) ==> is_image(d, chiral_pair, g, #[trigger] symmetry_image(d, chiral_pair, h, k)),
        forall|j: int| 0 <= j < num_images(chiral_pair) ==> is_image(d, chiral_pair, h, #[trigger] symmetry_image(d, chiral_pair, g, j)),
    ensures
        canonical_form(d, chiral_pair, h) == canonical_form(d, chiral_pair, g),
{
    let c = canonical_form(d, chiral_pair, g);
    lemma_canonical_is_least(d, chiral_pair, g);
    let w = choose|j: int| 0 <= j < num_images(chiral_pair) && c == #[trigger] symmetry_image(d, chiral_pair, g, j);
    assert(is_image(d, chiral_pair, h, symmetry_image(d, chiral_pair, g, w)));
    assert forall|k: int| 0 <= k < num_images(chiral_pair) implies key_le(c, #[trigger] symmetry_image(d, chiral_pair, h, k)) by {
        assert(is_image(d, chiral_pair, g, symmetry_image(d, chiral_pair, h, k)));
        let j = choose|j: int| 0 <= j < num_images(chiral_pair) && symmetry_image(d, chiral_pair, h, k) == #[trigger] symmetry_image(d, chiral_pair, g, j);
        assert(key_le(c, symmetry_image(d, chiral_pair, g, j)));
    }
    assert(is_least_image(d, chiral_pair, h, c));
    lemma_least_image_is_canonical(d, chiral_pair, h, c);
}

/// Mirroring a cell twice gives it back.
proof fn lemma_mirror_cell(d: int, i: int)
    requires
        0 < d,
        0 <= i < num_cells(d),
    ensures
        0 <= mirror_cell(d, i) < num_cells(d),
        mirror_cell(d, mirror_cell(d, i)) == i,
{
    lemma_cell_of_coord(d, i);
    let p = coord_of(d, i);
    lemma_coord_of_cell(d, d - 1 - p.0, p.1, p.2);
}

/// The value that a piece number takes when the chiral pair's ids swap.
pub open spec fn swap_value(v: u8, a: int, b: int) -> u8 {
    if v as int == a + 1 {
        (b + 1) as u8
    } else if v as int == b + 1 {
        (a + 1) as u8
    } else {
        v
    }
}

/// The value a cell of the mirror image of a grid holds.
pub open spec fn mirror_value(chiral_pair: Option<(usize, usize)>, v: u8) -> u8 {
    match chiral_pair {
        Some(p) => swap_value(v, p.0 as int, p.1 as int),
        None => v,
    }
}

/// The chiral pair names pieces whose ids fit a byte.
pub open spec fn pair_fits(chiral_pair: Option<(usize, usize)>) -> bool {
    chiral_pair matches Some(p) ==> p.0 < 255 && p.1 < 255
}

proof fn lemma_mirror_key_index(d: int, chiral_pair: Option<(usize, usize)>, g: Seq<u8>, i: int)
    requires
        0 <= i < g.len(),
    ensures
        mirror_key(d, chiral_pair, g).len() == g.len(),
        mirror_key(d, chiral_pair, g)[i] == mirror_value(chiral_pair, g[mirror_cell(d, i)]),
{
    reveal(reflect_key);
    reveal(swap_ids);
}

proof fn lemma_mirror_key_len(d: int, chiral_pair: Option<(usize, usize)>, g: Seq<u8>)
    ensures
        mirror_key(d, chiral_pair, g).len() == g.len(),
{
    reveal(reflect_key);
    reveal(swap_ids);
}

/// The mirror image of the mirror image of a grid is the grid.
proof fn lemma_mirror_key_twice(d: int, chiral_pair: Option<(usize, usize)>, g: Seq<u8>)
    requires
        0 < d,
        g.len() == num_cells(d),
        pair_fits(chiral_pair),
    ensures
        mirror_key(d, chiral_pair, mirror_key(d, chiral_pair, g)) == g,
{
    let m = mirror_key(d, chiral_pair, g);
    let mm = mirror_key(d, chiral_pair, m);
    lemma_mirror_key_len(d, chiral_pair, g);
    lemma_mirror_key_len(d, chiral_pair, m);
    assert forall|i: int| 0 <= i < g.len() implies mm[i] == g[i] by {
        lemma_mirror_cell(d, i);
        lemma_mirror_key_index(d, chiral_pair, m, i);
        lemma_mirror_key_index(d, chiral_pair, g, mirror_cell(d, i));
    }
    assert(mm =~= g);
}

/// The symmetry images of a grid's mirror image are those of the grid, the
/// two halves exchanged.
proof fn lemma_mirror_images(d: int, chiral_pair: Option<(usize, usize)>, g: Seq<u8>)
    requires
        chiral_pair is Some,
        0 < d,
        g.len() == num_cells(d),
        pair_fits(chiral_pair),
    ensures
        forall|k: int|
            0 <= k < num_images(chiral_pair) ==> #[trigger] symmetry_image(d, chiral_pair, mirror_key(d, chiral_pair, g), k)
                == symmetry_image(d, chiral_pair, g, if k < NUM_ROTATIONS { k + NUM_ROTATIONS } else { k - NUM_ROTATIONS }),
{
    lemma_mirror_key_twice(d, chiral_pair, g);
}

/// In a puzzle with a chiral pair, reflecting a grid across the x axis and
/// swapping the pair's ids leaves its canonical form unchanged.
pub proof fn lemma_mirror_keeps_canonical_form(d: int, chiral_pair: Option<(usize, usize)>, g: Seq<u8>)
    requires
        chiral_pair is Some,
        0 < d,
        g.len() == num_cells(d),
        pair_fits(chiral_pair),
    ensures
        canonical_form(d, chiral_pair, mirror_key(d, chiral_pair, g)) == canonical_form(d, chiral_pair, g),
{
    let m = mirror_key(d, chiral_pair, g);
    lemma_mirror_images(d, chiral_pair, g);
    assert forall|k: int| 0 <= k < num_images(chiral_pair) implies is_image(d, chiral_pair, g, #[trigger] symmetry_image(d, chiral_pair, m, k)) by {
        let j = if k < NUM_ROTATIONS { k + NUM_ROTATIONS } else { k - NUM_ROTATIONS };
        assert(symmetry_image(d, chiral_pair, m, k) == symmetry_image(d, chiral_pair, g, j));
    }
    assert forall|j: int| 0 <= j < num_images(chiral_pair) implies is_image(d, chiral_pair, m, #[trigger] symmetry_image(d, chiral_pair, g, j)) by {
        let k = if j < NUM_ROTATIONS { j + NUM_ROTATIONS } else { j - NUM_ROTATIONS };
        assert(symmetry_image(d, chiral_pair, m, k) == symmetry_image(d, chiral_pair, g, j));
    }
    lemma_same_images_same_form(d, chiral_pair, g, m);
}

/// Cube `c` reflected across the grid's middle plane perpendicular to x.
pub open spec fn mirror_coord(d: int, c: Coord) -> Coord {
    ((d - 1 - c.0) as i32, c.1, c.2)
}

/// The index a piece takes in the mirror image: the two pieces of the
/// chiral pair exchange indices.
pub open spec fn mirror_index(chiral_pair: Option<(usize, usize)>, i: usize) -> usize {
    match chiral_pair {
        Some(p) => if i == p.0 {
            p.1
        } else if i == p.1 {
            p.0
        } else {
            i
        },
        None => i,
    }
}

/// `t` is the solution `s` reflected across the x axis, each piece of the
/// chiral pair renamed to its twin.
pub open spec fn is_mirror_image(d: int, chiral_pair: Option<(usize, usize)>, s: Seq<PlacedPiece>, t: Seq<PlacedPiece>) -> bool {
    &&& t.len() == s.len()
    &&& forall|k: int|
        0 <= k < s.len() ==> {
            &&& (#[trigger] t[k]).piece_index == mirror_index(chiral_pair, s[k].piece_index)
            &&& t[k].cube_count == s[k].cube_count
            &&& forall|j: int|
                0 <= j < s[k].cube_count ==> #[trigger] t[k].positions@[j] == mirror_coord(d, s[k].positions@[j])
        }
}

proof fn lemma_mirror_coord_cell(d: int, c: Coord)
    requires
        0 < d <= MAX_DIM,
        coord_in_grid(d, c),
    ensures
        coord_in_grid(d, mirror_coord(d, c)),
        cell_of_coord(d, mirror_coord(d, c)) == mirror_cell(d, cell_of_coord(d, c)),
        0 <= cell_of_coord(d, c) < num_cells(d),
{
    lemma_coord_of_cell(d, c.0 as int, c.1 as int, c.2 as int);
}

proof fn lemma_mirror_zero_grid(d: int, chiral_pair: Option<(usize, usize)>)
    requires
        0 < d <= MAX_DIM,
    ensures
        mirror_key(d, chiral_pair, Seq::new(num_cells(d) as nat, |i: int| 0u8)) == Seq::new(num_cells(d) as nat, |i: int| 0u8),
{
    let z = Seq::new(num_cells(d) as nat, |i: int| 0u8);
    assert(0 < num_cells(d)) by (nonlinear_arith)
        requires
            0 < d,
    ;
    lemma_mirror_key_len(d, chiral_pair, z);
    assert forall|i: int| 0 <= i < z.len() implies mirror_key(d, chiral_pair, z)[i] == z[i] by {
        lemma_mirror_cell(d, i);
        lemma_mirror_key_index(d, chiral_pair, z, i);
    }
    assert(mirror_key(d, chiral_pair, z) =~= z);
}

/// Painting the mirrored cubes with the mirrored value on the mirror image
/// of a grid gives the mirror image of the painted grid.
proof fn lemma_mirror_paint(
    d: int,
    chiral_pair: Option<(usize, usize)>,
    g: Seq<u8>,
    cubes: Seq<Coord>,
    mirrored: Seq<Coord>,
    v: u8,
)
    requires
        0 < d <= MAX_DIM,
        g.len() == num_cells(d),
        mirrored.len() == cubes.len(),
        forall|j: int| 0 <= j < cubes.len() ==> coord_in_grid(d, #[trigger] cubes[j]),
        forall|j: int| 0 <= j < cubes.len() ==> #[trigger] mirrored[j] == mirror_coord(d, cubes[j]),
    ensures
        paint(d, mirror_key(d, chiral_pair, g), mirrored, mirror_value(chiral_pair, v)) == mirror_key(
            d,
            chiral_pair,
            paint(d, g, cubes, v),
        ),
    decreases cubes.len(),
{
    let mv = mirror_value(chiral_pair, v);
    if cubes.len() > 0 {
        let cs = cubes.drop_last();
        let ms = mirrored.drop_last();
        assert forall|j: int| 0 <= j < cs.len() implies coord_in_grid(d, #[trigger] cs[j]) by {
            assert(cs[j] == cubes[j]);
        }
        assert forall|j: int| 0 <= j < cs.len() implies #[trigger] ms[j] == mirror_coord(d, cs[j]) by {
            assert(cs[j] == cubes[j]);
            assert(ms[j] == mirrored[j]);
        }
        lemma_mirror_paint(d, chiral_pair, g, cs, ms, v);
        let h = paint(d, g, cs, v);
        lemma_paint_len(d, g, cs, v);
        lemma_mirror_key_len(d, chiral_pair, g);
        lemma_mirror_key_len(d, chiral_pair, h);
        let c = cubes.last();
        assert(coord_in_grid(d, cubes[cubes.len() - 1]));
        assert(mirrored.last() == mirror_coord(d, c));
        lemma_mirror_coord_cell(d, c);
        let i = cell_of_coord(d, c);
        lemma_mirror_cell(d, i);
        let lhs = paint(d, mirror_key(d, chiral_pair, g), mirrored, mv);
        let rhs = mirror_key(d, chiral_pair, paint(d, g, cubes, v));
        assert(paint(d, g, cubes, v) == h.update(i, v));
        assert(lhs == mirror_key(d, chiral_pair, h).update(mirror_cell(d, i), mv));
        lemma_mirror_key_len(d, chiral_pair, h.update(i, v));
        assert forall|j: int| 0 <= j < lhs.len() implies lhs[j] == rhs[j] by {
            lemma_mirror_cell(d, j);
            lemma_mirror_key_index(d, chiral_pair, h, j);
            lemma_mirror_key_index(d, chiral_pair, h.update(i, v), j);
        }
        assert(lhs =~= rhs);
    }
}

/// The grid of the mirror image of a solution is the mirror image of its
/// grid.
proof fn lemma_mirror_grid(d: int, chiral_pair: Option<(usize, usize)>, s: Seq<PlacedPiece>, t: Seq<PlacedPiece>)
    requires
        0 < d <= MAX_DIM,
        solution_fits_grid(d, s),
        pair_fits(chiral_pair),
        is_mirror_image(d, chiral_pair, s, t),
    ensures
        grid_of(d, t) == mirror_key(d, chiral_pair, grid_of(d, s)),
    decreases s.len(),
{
    if s.len() == 0 {
        lemma_mirror_zero_grid(d, chiral_pair);
    } else {
        let s1 = s.drop_last();
        let t1 = t.drop_last();
        assert forall|k: int| 0 <= k < s1.len() implies fits_grid(d, #[trigger] s1[k]) by {
            assert(s1[k] == s[k]);
        }
        assert forall|k: int| 0 <= k < s1.len() implies {
            &&& (#[trigger] t1[k]).piece_index == mirror_index(chiral_pair, s1[k].piece_index)
            &&& t1[k].cube_count == s1[k].cube_count
            &&& forall|j: int|
                0 <= j < s1[k].cube_count ==> #[trigger] t1[k].positions@[j] == mirror_coord(d, s1[k].positions@[j])
        } by {
            assert(s1[k] == s[k]);
            assert(t1[k] == t[k]);
        }
        lemma_mirror_grid(d, chiral_pair, s1, t1);
        let p = s.last();
        let q = t.last();
        assert(fits_grid(d, s[s.len() - 1]));
        assert(q.piece_index == mirror_index(chiral_pair, p.piece_index));
        let pc = p.cubes_view();
        let qc = q.cubes_view();
        assert forall|j: int| 0 <= j < pc.len() implies coord_in_grid(d, #[trigger] pc[j]) by {
            assert(pc[j] == p.positions@[j]);
        }
        assert forall|j: int| 0 <= j < pc.len() implies #[trigger] qc[j] == mirror_coord(d, pc[j]) by {
            assert(pc[j] == p.positions@[j]);
            assert(qc[j] == q.positions@[j]);
            assert(q.positions@[j] == mirror_coord(d, p.positions@[j]));
        }
        lemma_grid_of_len(d, s1);
        assert((q.piece_index + 1) as u8 == mirror_value(chiral_pair, (p.piece_index + 1) as u8));
        lemma_mirror_paint(d, chiral_pair, grid_of(d, s1), pc, qc, (p.piece_index + 1) as u8);
    }
}

/// Reflecting a solution across the x axis and giving each piece of the
/// chiral pair its twin's index leaves the canonical key unchanged.
pub proof fn lemma_mirror_solution_keeps_key(
    d: int,
    chiral_pair: Option<(usize, usize)>,
    s: Seq<PlacedPiece>,
    t: Seq<PlacedPiece>,
)
    requires
        chiral_pair is Some,
        0 < d <= MAX_DIM,
        solution_fits_grid(d, s),
        pair_fits(chiral_pair),
        is_mirror_image(d, chiral_pair, s, t),
    ensures
        canonical_form(d, chiral_pair, grid_of(d, t)) == canonical_form(d, chiral_pair, grid_of(d, s)),
{
    lemma_mirror_grid(d, chiral_pair, s, t);
    lemma_grid_of_len(d, s);
    lemma_mirror_keeps_canonical_form(d, chiral_pair, grid_of(d, s));
}


/// The rotation that rotation `k` after rotation `r` amounts to.
pub open spec fn compose_rotations(k: int, r: int) -> int {
    let t = seq![0int, 1, 2, 3, 4, 5, 6, 7, 8, 9, 10, 11, 12, 13, 14, 15, 16, 17, 18, 19, 20, 21, 22, 23, 1, 2, 3, 0, 5, 6, 7, 4, 9, 10, 11, 8, 13, 14, 15, 12, 17, 18, 19, 16, 21, 22, 23, 20, 2, 3, 0, 1, 6, 7, 4, 5, 10, 11, 8, 9, 14, 15, 12, 13, 18, 19, 16, 17, 22, 23, 20, 21, 3, 0, 1, 2, 7, 4, 5, 6, 11, 8, 9, 10, 15, 12, 13, 14, 19, 16, 17, 18, 23, 20, 21, 22, 4, 21, 14, 19, 8, 22, 2, 18, 12, 23, 6, 17, 0, 20, 10, 16, 5, 1, 13, 9, 7, 11, 15, 3, 5, 22, 15, 16, 9, 23, 3, 19, 13, 20, 7, 18, 1, 21, 11, 17, 6, 2, 14, 10, 4, 8, 12, 0, 6, 23, 12, 17, 10, 20, 0, 16, 14, 21, 4, 19, 2, 22, 8, 18, 7, 3, 15, 11, 5, 9, 13, 1, 7, 20, 13, 18, 11, 21, 1, 17, 15, 22, 5, 16, 3, 23, 9, 19, 4, 0, 12, 8, 6, 10, 14, 2, 8, 11, 10, 9, 12, 15, 14, 13, 0, 3, 2, 1, 4, 7, 6, 5, 22, 21, 20, 23, 18, 17, 16, 19, 9, 8, 11, 10, 13, 12, 15, 14, 1, 0, 3, 2, 5, 4, 7, 6, 23, 22, 21, 20, 19, 18, 17, 16, 10, 9, 8, 11, 14, 13, 12, 15, 2, 1, 0, 3, 6, 5, 4, 7, 20, 23, 22, 21, 16, 19, 18, 17, 11, 10, 9, 8, 15, 14, 13, 12, 3, 2, 1, 0, 7, 6, 5, 4, 21, 20, 23, 22, 17, 16, 19, 18, 12, 17, 6, 23, 0, 16, 10, 20, 4, 19, 14, 21, 8, 18, 2, 22, 15, 11, 7, 3, 13, 1, 5, 9, 13, 18, 7, 20, 1, 17, 11, 21, 5, 16, 15, 22, 9, 19, 3, 23, 12, 8, 4, 0, 14, 2, 6, 10, 14, 19, 4, 21, 2, 18, 8, 22, 6, 17, 12, 23, 10, 16, 0, 20, 13, 9, 5, 1, 15, 3, 7, 11, 15, 16, 5, 22, 3, 19, 9, 23, 7, 18, 13, 20, 11, 17, 1, 21, 14, 10, 6, 2, 12, 0, 4, 8, 16, 5, 22, 15, 19, 9, 23, 3, 18, 13, 20, 7, 17, 1, 21, 11, 10, 6, 2, 14, 0, 4, 8, 12, 17, 6, 23, 12, 16, 10, 20, 0, 19, 14, 21, 4, 18, 2, 22, 8, 11, 7, 3, 15, 1, 5, 9, 13, 18, 7, 20, 13, 17, 11, 21, 1, 16, 15, 22, 5, 19, 3, 23, 9, 8, 4, 0, 12, 2, 6, 10, 14, 19, 4, 21, 14, 18, 8, 22, 2, 17, 12, 23, 6, 16, 0, 20, 10, 9, 5, 1, 13, 3, 7, 11, 15, 20, 13, 18, 7, 21, 1, 17, 11, 22, 5, 16, 15, 23, 9, 19, 3, 0, 12, 8, 4, 10, 14, 2, 6, 21, 14, 19, 4, 22, 2, 18, 8, 23, 6, 17, 12, 20, 10, 16, 0, 1, 13, 9, 5, 11, 15, 3, 7, 22, 15, 16, 5, 23, 3, 19, 9, 20, 7, 18, 13, 21, 11, 17, 1, 2, 14, 10, 6, 8, 12, 0, 4, 23, 12, 17, 6, 20, 0, 16, 10, 21, 4, 19, 14, 22, 8, 18, 2, 3, 15, 11, 7, 9, 13, 1, 5];
    t[k * 24 + r]
}

/// The rotation that rotation `r` becomes when seen in a mirror
/// perpendicular to the x axis.
pub open spec fn mirrored_rotation(r: int) -> int {
    let t = seq![0int, 3, 2, 1, 4, 7, 6, 5, 8, 11, 10, 9, 12, 15, 14, 13, 20, 23, 22, 21, 16, 19, 18, 17];
    t[r]
}

/// Rotation `k` after rotation `r` is rotation `compose_rotations(k, r)`.
pub proof fn lemma_compose(k: int, r: int, p: Point)
    requires
        0 <= k < NUM_ROTATIONS,
        0 <= r < NUM_ROTATIONS,
    ensures
        rotate_point(k, rotate_point(r, p)) == rotate_point(compose_rotations(k, r), p),
{
}


/// Seen in a mirror, a rotation is the rotation `mirrored_rotation` gives.
pub proof fn lemma_mirrored_rotation(r: int, p: Point)
    requires
        0 <= r < NUM_ROTATIONS,
    ensures
        rotate_point(mirrored_rotation(r), (-p.0, p.1, p.2)) == ({
            let q = rotate_point(r, p);
            (-q.0, q.1, q.2)
        }),
        0 <= mirrored_rotation(r) < NUM_ROTATIONS,
        mirrored_rotation(inverse_rotation(r)) == inverse_rotation(mirrored_rotation(r)),
        compose_rotations(inverse_rotation(r), r) == 0,
{
}

/// The doubled centered coordinates of a cell.
spec fn centered(d: int, p: Point) -> Point {
    (2 * p.0 - (d - 1), 2 * p.1 - (d - 1), 2 * p.2 - (d - 1))
}

/// Rotating a cell in the grid rotates its centered coordinates.
proof fn lemma_centered_rotation(d: int, r: int, p: Point)
    requires
        in_grid(d, p),
        0 <= r < NUM_ROTATIONS,
    ensures
        centered(d, rotate_in_grid(d, r, p)) == rotate_point(r, centered(d, p)),
        rotate_in_grid(d, mirrored_rotation(r), (d - 1 - p.0, p.1, p.2)) == ({
            let q = rotate_in_grid(d, r, p);
            (d - 1 - q.0, q.1, q.2)
        }),
{
    let m = d - 1;
    lemma_half(p.0, m);
    lemma_half(p.1, m);
    lemma_half(p.2, m);
    lemma_half(m - p.0, m);
    lemma_half(m - p.1, m);
    lemma_half(m - p.2, m);
    if r == 0 {
    } else if r == 1 {
    } else if r == 2 {
    } else if r == 3 {
    } else if r == 4 {
    } else if r == 5 {
    } else if r == 6 {
    } else if r == 7 {
    } else if r == 8 {
    } else if r == 9 {
    } else if r == 10 {
    } else if r == 11 {
    } else if r == 12 {
    } else if r == 13 {
    } else if r == 14 {
    } else if r == 15 {
    } else if r == 16 {
    } else if r == 17 {
    } else if r == 18 {
    } else if r == 19 {
    } else if r == 20 {
    } else if r == 21 {
    } else if r == 22 {
    } else if r == 23 {
    }
}

/// Rotation `k` after rotation `r` moves each cell as their composition.
proof fn lemma_compose_cells(d: int, k: int, r: int, i: int)
    requires
        0 < d,
        0 <= i < num_cells(d),
        0 <= k < NUM_ROTATIONS,
        0 <= r < NUM_ROTATIONS,
    ensures
        rotate_cell(d, k, rotate_cell(d, r, i)) == rotate_cell(d, compose_rotations(k, r), i),
{
    lemma_cell_of_coord(d, i);
    let p = coord_of(d, i);
    lemma_rotate_in_grid(d, r, p);
    let q = rotate_in_grid(d, r, p);
    lemma_coord_of_cell(d, q.0, q.1, q.2);
    lemma_centered_rotation(d, r, p);
    lemma_compose(k, r, centered(d, p));
}

/// Reflecting after rotation `r` is rotating by its mirrored rotation after
/// reflecting.
proof fn lemma_mirror_rotated_cell(d: int, r: int, i: int)
    requires
        0 < d,
        0 <= i < num_cells(d),
        0 <= r < NUM_ROTATIONS,
    ensures
        mirror_cell(d, rotate_cell(d, r, i)) == rotate_cell(d, mirrored_rotation(r), mirror_cell(d, i)),
{
    lemma_cell_of_coord(d, i);
    let p = coord_of(d, i);
    lemma_rotate_in_grid(d, r, p);
    let q = rotate_in_grid(d, r, p);
    lemma_coord_of_cell(d, q.0, q.1, q.2);
    lemma_coord_of_cell(d, d - 1 - p.0, p.1, p.2);
    lemma_centered_rotation(d, r, p);
}

proof fn lemma_rotate_key_index(d: int, r: int, g: Seq<u8>, j: int)
    requires
        0 <= j < g.len(),
    ensures
        rotate_key(d, r, g).len() == g.len(),
        rotate_key(d, r, g)[j] == g[rotate_cell(d, inverse_rotation(r), j)],
{
    reveal(rotate_key);
}

proof fn lemma_rotate_key_len(d: int, r: int, g: Seq<u8>)
    ensures
        rotate_key(d, r, g).len() == g.len(),
{
    reveal(rotate_key);
}

/// Rotating a cell and then its inverse, in either order, gives it back.
proof fn lemma_rotate_both_ways(d: int, r: int, i: int)
    requires
        0 < d,
        0 <= i < num_cells(d),
        0 <= r < NUM_ROTATIONS,
    ensures
        rotate_cell(d, inverse_rotation(r), rotate_cell(d, r, i)) == i,
        rotate_cell(d, r, rotate_cell(d, inverse_rotation(r), i)) == i,
        0 <= rotate_cell(d, r, i) < num_cells(d),
        0 <= rotate_cell(d, inverse_rotation(r), i) < num_cells(d),
{
    lemma_inverse_rotation(r);
    lemma_rotate_cell(d, r, i);
    lemma_rotate_cell(d, inverse_rotation(r), i);
}

/// Rotating a grid's key by `r`, then by `k`, is rotating it by their
/// composition.
proof fn lemma_compose_keys(d: int, k: int, r: int, g: Seq<u8>)
    requires
        0 < d,
        g.len() == num_cells(d),
        0 <= k < NUM_ROTATIONS,
        0 <= r < NUM_ROTATIONS,
    ensures
        rotate_key(d, k, rotate_key(d, r, g)) == rotate_key(d, compose_rotations(k, r), g),
{
    let c = compose_rotations(k, r);
    let g1 = rotate_key(d, r, g);
    lemma_rotate_key_len(d, r, g);
    lemma_rotate_key_len(d, k, g1);
    lemma_rotate_key_len(d, c, g);
    lemma_compose(0, 0, (0, 0, 0));
    assert(0 <= c < NUM_ROTATIONS);
    lemma_rotation_is_permutation(d, c);
    assert forall|j: int| 0 <= j < g.len() implies rotate_key(d, k, g1)[j] == rotate_key(d, c, g)[j] by {
        lemma_rotate_key_index(d, k, g1, j);
        lemma_rotate_both_ways(d, k, j);
        let y = rotate_cell(d, inverse_rotation(k), j);
        lemma_rotate_key_index(d, r, g, y);
        lemma_rotate_both_ways(d, r, y);
        let x = rotate_cell(d, inverse_rotation(r), y);
        lemma_rotate_key_index(d, c, g, j);
        lemma_rotate_both_ways(d, c, j);
        lemma_compose_cells(d, k, r, x);
        lemma_rotate_both_ways(d, r, x);
        assert(rotate_cell(d, r, x) == y);
        assert(rotate_cell(d, c, x) == j);
        assert(rotate_cell(d, c, rotate_cell(d, inverse_rotation(c), j)) == j);
    }
    assert(rotate_key(d, k, g1) =~= rotate_key(d, c, g));
}

/// The mirror image of a rotated key is the mirror image rotated by the
/// mirrored rotation.
proof fn lemma_mirror_rotated_key(d: int, chiral_pair: Option<(usize, usize)>, r: int, g: Seq<u8>)
    requires
        0 < d,
        g.len() == num_cells(d),
        0 <= r < NUM_ROTATIONS,
    ensures
        mirror_key(d, chiral_pair, rotate_key(d, r, g)) == rotate_key(d, mirrored_rotation(r), mirror_key(d, chiral_pair, g)),
{
    let m = mirror_key(d, chiral_pair, g);
    let g1 = rotate_key(d, r, g);
    let c = mirrored_rotation(r);
    lemma_mirrored_rotation(r, (0, 0, 0));
    lemma_inverse_rotation(r);
    lemma_mirrored_rotation(inverse_rotation(r), (0, 0, 0));
    lemma_rotate_key_len(d, r, g);
    lemma_mirror_key_len(d, chiral_pair, g);
    lemma_mirror_key_len(d, chiral_pair, g1);
    lemma_rotate_key_len(d, c, m);
    assert forall|j: int| 0 <= j < g.len() implies mirror_key(d, chiral_pair, g1)[j] == rotate_key(d, c, m)[j] by {
        lemma_mirror_cell(d, j);
        lemma_mirror_key_index(d, chiral_pair, g1, j);
        lemma_rotate_key_index(d, r, g, mirror_cell(d, j));
        lemma_rotate_key_index(d, c, m, j);
        lemma_rotate_both_ways(d, c, j);
        let y = rotate_cell(d, inverse_rotation(c), j);
        lemma_mirror_key_index(d, chiral_pair, g, y);
        lemma_mirror_rotated_cell(d, inverse_rotation(r), mirror_cell(d, j));
        lemma_rotate_both_ways(d, inverse_rotation(r), mirror_cell(d, j));
        lemma_mirror_cell(d, rotate_cell(d, inverse_rotation(r), mirror_cell(d, j)));
    }
    assert(mirror_key(d, chiral_pair, g1) =~= rotate_key(d, c, m));
}

/// Every symmetry image of a rotated grid is a symmetry image of the grid.
proof fn lemma_rotated_images(d: int, chiral_pair: Option<(usize, usize)>, r: int, g: Seq<u8>)
    requires
        0 < d,
        g.len() == num_cells(d),
        0 <= r < NUM_ROTATIONS,
    ensures
        forall|k: int|
            0 <= k < num_images(chiral_pair) ==> is_image(d, chiral_pair, g, #[trigger] symmetry_image(d, chiral_pair, rotate_key(d, r, g), k)),
{
    let g1 = rotate_key(d, r, g);
    let m = mirror_key(d, chiral_pair, g);
    lemma_mirror_key_len(d, chiral_pair, g);
    lemma_mirror_rotated_key(d, chiral_pair, r, g);
    lemma_mirrored_rotation(r, (0, 0, 0));
    assert forall|k: int| 0 <= k < num_images(chiral_pair) implies is_image(d, chiral_pair, g, #[trigger] symmetry_image(d, chiral_pair, g1, k)) by {
        lemma_compose(0, 0, (0, 0, 0));
        if k < NUM_ROTATIONS {
            lemma_compose_keys(d, k, r, g);
            let j = compose_rotations(k, r);
            assert(0 <= j < NUM_ROTATIONS);
            assert(symmetry_image(d, chiral_pair, g1, k) == symmetry_image(d, chiral_pair, g, j));
        } else {
            lemma_compose_keys(d, k - NUM_ROTATIONS, mirrored_rotation(r), m);
            let j = compose_rotations(k - NUM_ROTATIONS, mirrored_rotation(r));
            assert(0 <= j < NUM_ROTATIONS);
            assert(symmetry_image(d, chiral_pair, g1, k) == symmetry_image(d, chiral_pair, g, j + NUM_ROTATIONS));
        }
    }
}

/// Rotating a grid by any of the 24 rotations leaves its canonical form
/// unchanged.
pub proof fn lemma_rotation_keeps_canonical_form(d: int, chiral_pair: Option<(usize, usize)>, r: int, g: Seq<u8>)
    requires
        0 < d,
        g.len() == num_cells(d),
        0 <= r < NUM_ROTATIONS,
    ensures
        canonical_form(d, chiral_pair, rotate_key(d, r, g)) == canonical_form(d, chiral_pair, g),
{
    let g1 = rotate_key(d, r, g);
    let v = inverse_rotation(r);
    lemma_inverse_rotation(r);
    lemma_rotate_key_len(d, r, g);
    lemma_rotated_images(d, chiral_pair, r, g);
    lemma_rotated_images(d, chiral_pair, v, g1);
    lemma_compose_keys(d, v, r, g);
    lemma_mirrored_rotation(r, (0, 0, 0));
    lemma_rotation_is_permutation(d, 0);
    assert(rotate_key(d, 0, g) =~= g) by {
        reveal(rotate_key);
    }
    assert(rotate_key(d, v, g1) == g);
    lemma_same_images_same_form(d, chiral_pair, g, g1);
}

/// Cube `c` moved by rotation `r` about the grid's center.
pub open spec fn rotate_coord(d: int, r: int, c: Coord) -> Coord {
    let q = rotate_in_grid(d, r, (c.0 as int, c.1 as int, c.2 as int));
    (q.0 as i32, q.1 as i32, q.2 as i32)
}

/// `t` is the solution `s` with every cube moved by rotation `r`, each piece
/// keeping its index.
pub open spec fn is_rotated_image(d: int, r: int, s: Seq<PlacedPiece>, t: Seq<PlacedPiece>) -> bool {
    &&& t.len() == s.len()
    &&& forall|k: int|
        0 <= k < s.len() ==> {
            &&& (#[trigger] t[k]).piece_index == s[k].piece_index
            &&& t[k].cube_count == s[k].cube_count
            &&& forall|j: int|
                0 <= j < s[k].cube_count ==> #[trigger] t[k].positions@[j] == rotate_coord(d, r, s[k].positions@[j])
        }
}

proof fn lemma_rotate_coord_cell(d: int, r: int, c: Coord)
    requires
        0 < d <= MAX_DIM,
        0 <= r < NUM_ROTATIONS,
        coord_in_grid(d, c),
    ensures
        coord_in_grid(d, rotate_coord(d, r, c)),
        cell_of_coord(d, rotate_coord(d, r, c)) == rotate_cell(d, r, cell_of_coord(d, c)),
        0 <= cell_of_coord(d, c) < num_cells(d),
{
    let p = (c.0 as int, c.1 as int, c.2 as int);
    lemma_coord_of_cell(d, p.0, p.1, p.2);
    lemma_rotate_in_grid(d, r, p);
}

proof fn lemma_rotate_zero_grid(d: int, r: int)
    requires
        0 < d <= MAX_DIM,
        0 <= r < NUM_ROTATIONS,
    ensures
        rotate_key(d, r, Seq::new(num_cells(d) as nat, |i: int| 0u8)) == Seq::new(num_cells(d) as nat, |i: int| 0u8),
{
    let z = Seq::new(num_cells(d) as nat, |i: int| 0u8);
    assert(0 < num_cells(d)) by (nonlinear_arith)
        requires
            0 < d,
    ;
    lemma_rotate_key_len(d, r, z);
    assert forall|j: int| 0 <= j < z.len() implies rotate_key(d, r, z)[j] == z[j] by {
        lemma_rotate_key_index(d, r, z, j);
        lemma_rotate_both_ways(d, r, j);
    }
    assert(rotate_key(d, r, z) =~= z);
}

/// Painting the rotated cubes on the rotated grid gives the rotated painted
/// grid.
proof fn lemma_rotate_paint(d: int, r: int, g: Seq<u8>, cubes: Seq<Coord>, rotated: Seq<Coord>, v: u8)
    requires
        0 < d <= MAX_DIM,
        0 <= r < NUM_ROTATIONS,
        g.len() == num_cells(d),
        rotated.len() == cubes.len(),
        forall|j: int| 0 <= j < cubes.len() ==> coord_in_grid(d, #[trigger] cubes[j]),
        forall|j: int| 0 <= j < cubes.len() ==> #[trigger] rotated[j] == rotate_coord(d, r, cubes[j]),
    ensures
        paint(d, rotate_key(d, r, g), rotated, v) == rotate_key(d, r, paint(d, g, cubes, v)),
    decreases cubes.len(),
{
    if cubes.len() > 0 {
        let cs = cubes.drop_last();
        let rs = rotated.drop_last();
        assert forall|j: int| 0 <= j < cs.len() implies coord_in_grid(d, #[trigger] cs[j]) by {
            assert(cs[j] == cubes[j]);
        }
        assert forall|j: int| 0 <= j < cs.len() implies #[trigger] rs[j] == rotate_coord(d, r, cs[j]) by {
            assert(cs[j] == cubes[j]);
            assert(rs[j] == rotated[j]);
        }
        lemma_rotate_paint(d, r, g, cs, rs, v);
        let h = paint(d, g, cs, v);
        lemma_paint_len(d, g, cs, v);
        lemma_rotate_key_len(d, r, g);
        lemma_rotate_key_len(d, r, h);
        let c = cubes.last();
        assert(coord_in_grid(d, cubes[cubes.len() - 1]));
        assert(rotated.last() == rotate_coord(d, r, c));
        lemma_rotate_coord_cell(d, r, c);
        let i = cell_of_coord(d, c);
        lemma_rotate_both_ways(d, r, i);
        let lhs = paint(d, rotate_key(d, r, g), rotated, v);
        let rhs = rotate_key(d, r, paint(d, g, cubes, v));
        assert(paint(d, g, cubes, v) == h.update(i, v));
        assert(lhs == rotate_key(d, r, h).update(rotate_cell(d, r, i), v));
        lemma_rotate_key_len(d, r, h.update(i, v));
        assert forall|j: int| 0 <= j < lhs.len() implies lhs[j] == rhs[j] by {
            lemma_rotate_both_ways(d, r, j);
            lemma_rotate_key_index(d, r, h, j);
            lemma_rotate_key_index(d, r, h.update(i, v), j);
        }
        assert(lhs =~= rhs);
    }
}

/// The grid of a rotated solution is the rotated grid of the solution.
proof fn lemma_rotate_grid(d: int, r: int, s: Seq<PlacedPiece>, t: Seq<PlacedPiece>)
    requires
        0 < d <= MAX_DIM,
        0 <= r < NUM_ROTATIONS,
        solution_fits_grid(d, s),
        is_rotated_image(d, r, s, t),
    ensures
        grid_of(d, t) == rotate_key(d, r, grid_of(d, s)),
    decreases s.len(),
{
    if s.len() == 0 {
        lemma_rotate_zero_grid(d, r);
    } else {
        let s1 = s.drop_last();
        let t1 = t.drop_last();
        assert forall|k: int| 0 <= k < s1.len() implies fits_grid(d, #[trigger] s1[k]) by {
            assert(s1[k] == s[k]);
        }
        assert forall|k: int| 0 <= k < s1.len() implies {
            &&& (#[trigger] t1[k]).piece_index == s1[k].piece_index
            &&& t1[k].cube_count == s1[k].cube_count
            &&& forall|j: int|
                0 <= j < s1[k].cube_count ==> #[trigger] t1[k].positions@[j] == rotate_coord(d, r, s1[k].positions@[j])
        } by {
            assert(s1[k] == s[k]);
            assert(t1[k] == t[k]);
        }
        lemma_rotate_grid(d, r, s1, t1);
        let p = s.last();
        let q = t.last();
        assert(fits_grid(d, s[s.len() - 1]));
        let pc = p.cubes_view();
        let qc = q.cubes_view();
        assert forall|j: int| 0 <= j < pc.len() implies coord_in_grid(d, #[trigger] pc[j]) by {
            assert(pc[j] == p.positions@[j]);
        }
        assert forall|j: int| 0 <= j < pc.len() implies #[trigger] qc[j] == rotate_coord(d, r, pc[j]) by {
            assert(pc[j] == p.positions@[j]);
            assert(qc[j] == q.positions@[j]);
            assert(q.positions@[j] == rotate_coord(d, r, p.positions@[j]));
        }
        lemma_grid_of_len(d, s1);
        lemma_rotate_paint(d, r, grid_of(d, s1), pc, qc, (p.piece_index + 1) as u8);
    }
}

/// Moving every cube of a solution by the same rotation about the grid's
/// center, each piece keeping its index, leaves the canonical key unchanged.
pub proof fn lemma_rotated_solution_keeps_key(
    d: int,
    chiral_pair: Option<(usize, usize)>,
    r: int,
    s: Seq<PlacedPiece>,
    t: Seq<PlacedPiece>,
)
    requires
        0 < d <= MAX_DIM,
        0 <= r < NUM_ROTATIONS,
        solution_fits_grid(d, s),
        is_rotated_image(d, r, s, t),
    ensures
        canonical_form(d, chiral_pair, grid_of(d, t)) == canonical_form(d, chiral_pair, grid_of(d, s)),
{
    lemma_rotate_grid(d, r, s, t);
    lemma_grid_of_len(d, s);
    lemma_rotation_keeps_canonical_form(d, chiral_pair, r, grid_of(d, s));
}

} // verus!
