//! The 24 proper rotations of a cube and the orientations of a piece.
//!
//! The rotations are organized as 6 face-up choices times 4 rotations about
//! the vertical axis: 0-3 +Z up, 4-7 +Y up, 8-11 -Z up, 12-15 -Y up,
//! 16-19 +X up, 20-23 -X up. The grid-level permutation table in
//! `grid::build_rotation_table` uses the same numbering.

use vstd::prelude::*;

use crate::pieces::{Coord, COORD_LIMIT};

verus! {

/// Number of proper rotations of a cube.
pub const NUM_ROTATIONS: usize = 24;

/// A point with unbounded integer coordinates.
pub type Point = (int, int, int);

pub open spec fn point_of(c: Coord) -> Point {
    (c.0 as int, c.1 as int, c.2 as int)
}

/// Rotation `r` of the cube group, applied to a point about the origin.
pub open spec fn rotate_point(r: int, p: Point) -> Point {
    let (x, y, z) = p;
    if r == 0 { (x, y, z) }
    else if r == 1 { (-y, x, z) }
    else if r == 2 { (-x, -y, z) }
    else if r == 3 { (y, -x, z) }
    else if r == 4 { (x, -z, y) }
    else if r == 5 { (z, x, y) }
    else if r == 6 { (-x, z, y) }
    else if r == 7 { (-z, -x, y) }
    else if r == 8 { (x, -y, -z) }
    else if r == 9 { (y, x, -z) }
    else if r == 10 { (-x, y, -z) }
    else if r == 11 { (-y, -x, -z) }
    else if r == 12 { (x, z, -y) }
    else if r == 13 { (-z, x, -y) }
    else if r == 14 { (-x, -z, -y) }
    else if r == 15 { (z, -x, -y) }
    else if r == 16 { (z, y, -x) }
    else if r == 17 { (-y, z, -x) }
    else if r == 18 { (-z, -y, -x) }
    else if r == 19 { (y, -z, -x) }
    else if r == 20 { (-z, y, x) }
    else if r == 21 { (-y, -z, x) }
    else if r == 22 { (z, -y, x) }
    else { (y, z, x) }
}

/// Each coordinate of `c` lies in `[-l, l]`.
pub open spec fn coord_within(c: Coord, l: int) -> bool {
    -l <= c.0 <= l && -l <= c.1 <= l && -l <= c.2 <= l
}

/// Every cube of `s` lies within `[-l, l]` on each axis.
pub open spec fn coords_within(s: Seq<Coord>, l: int) -> bool {
    forall|i: int| 0 <= i < s.len() ==> coord_within(#[trigger] s[i], l)
}

/// Coordinate `a` (0 = x, 1 = y, 2 = z) of a cube.
pub open spec fn axis(c: Coord, a: int) -> int {
    if a == 0 { c.0 as int } else if a == 1 { c.1 as int } else { c.2 as int }
}

/// Smallest coordinate along axis `a` over a non-empty sequence of cubes.
pub open spec fn min_axis(s: Seq<Coord>, a: int) -> int
    decreases s.len(),
{
    if s.len() <= 1 {
        axis(s[0], a)
    } else {
        let m = min_axis(s.drop_last(), a);
        if axis(s.last(), a) < m { axis(s.last(), a) } else { m }
    }
}

/// The cubes translated so that the minimum along every axis is zero.
pub open spec fn normalized(s: Seq<Coord>) -> Seq<Coord> {
    s.map_values(|c: Coord| (
        (c.0 - min_axis(s, 0)) as i32,
        (c.1 - min_axis(s, 1)) as i32,
        (c.2 - min_axis(s, 2)) as i32,
    ))
}

/// No coordinate is negative, and each axis has a cube at 0.
pub open spec fn is_normalized(s: Seq<Coord>) -> bool {
    &&& forall|c: Coord| #[trigger] s.to_set().contains(c) ==> c.0 >= 0 && c.1 >= 0 && c.2 >= 0
    &&& exists|c: Coord| #[trigger] s.to_set().contains(c) && c.0 == 0
    &&& exists|c: Coord| #[trigger] s.to_set().contains(c) && c.1 == 0
    &&& exists|c: Coord| #[trigger] s.to_set().contains(c) && c.2 == 0
}

/// Rotation `r` applied to every cube of a piece.
pub open spec fn rotated(s: Seq<Coord>, r: int) -> Seq<Coord> {
    s.map_values(
        |c: Coord|
            {
                let p = rotate_point(r, point_of(c));
                (p.0 as i32, p.1 as i32, p.2 as i32)
            },
    )
}

/// The orientation that rotation `r` gives a piece.
pub open spec fn orientation_of(piece: Seq<Coord>, r: int) -> Seq<Coord> {
    normalized(rotated(piece, r))
}

/// `o` lists, in some order, the cubes of one of the orientations of `piece`.
pub open spec fn is_orientation_of(piece: Seq<Coord>, o: Seq<Coord>) -> bool {
    &&& o.len() == piece.len()
    &&& exists|r: int| 0 <= r < NUM_ROTATIONS && o.to_set() == #[trigger] orientation_of(piece, r).to_set()
}

/// Lexicographic order on cubes.
pub open spec fn coord_lt(a: Coord, b: Coord) -> bool {
    a.0 < b.0 || (a.0 == b.0 && (a.1 < b.1 || (a.1 == b.1 && a.2 < b.2)))
}

/// Lexicographic order on sequences of cubes; a proper prefix comes first.
pub open spec fn coords_lt(a: Seq<Coord>, b: Seq<Coord>) -> bool
    decreases a.len(),
{
    if a.len() == 0 {
        b.len() > 0
    } else if b.len() == 0 {
        false
    } else {
        coord_lt(a[0], b[0]) || (a[0] == b[0] && coords_lt(a.drop_first(), b.drop_first()))
    }
}

proof fn lemma_coords_lt_irreflexive(a: Seq<Coord>)
    ensures
        !coords_lt(a, a),
    decreases a.len(),
{
    if a.len() > 0 {
        lemma_coords_lt_irreflexive(a.drop_first());
    }
}

proof fn lemma_coords_lt_transitive(a: Seq<Coord>, b: Seq<Coord>, c: Seq<Coord>)
    requires
        coords_lt(a, b),
        coords_lt(b, c),
    ensures
        coords_lt(a, c),
    decreases a.len(),
{
    if a.len() > 0 && b.len() > 0 && c.len() > 0 {
        if a[0] == b[0] && b[0] == c[0] {
            lemma_coords_lt_transitive(a.drop_first(), b.drop_first(), c.drop_first());
        }
    }
}

proof fn lemma_coords_lt_total(a: Seq<Coord>, b: Seq<Coord>)
    ensures
        a == b || coords_lt(a, b) || coords_lt(b, a),
    decreases a.len(),
{
    if a.len() > 0 && b.len() > 0 {
        lemma_coords_lt_total(a.drop_first(), b.drop_first());
        if a[0] == b[0] && a.drop_first() == b.drop_first() {
            assert(a =~= seq![a[0]] + a.drop_first());
            assert(b =~= seq![b[0]] + b.drop_first());
        }
    } else if a.len() == 0 && b.len() == 0 {
        assert(a =~= b);
    }
}

/// The cubes of orientation `r` of `piece` occur in `out`, in some order.
pub open spec fn listed(piece: Seq<Coord>, out: Seq<Vec<Coord>>, r: int) -> bool {
    exists|i: int| 0 <= i < out.len() && (#[trigger] out[i])@.to_set() == orientation_of(piece, r).to_set()
}

/// The cubes are in strictly increasing order of `coord_lt`.
pub open spec fn cubes_sorted(s: Seq<Coord>) -> bool {
    forall|i: int, j: int| 0 <= i < j < s.len() ==> coord_lt(#[trigger] s[i], #[trigger] s[j])
}

/// Two sorted lists of the same cubes are equal.
pub proof fn lemma_sorted_same_cubes(a: Seq<Coord>, b: Seq<Coord>)
    requires
        cubes_sorted(a),
        cubes_sorted(b),
        a.to_set() == b.to_set(),
    ensures
        a == b,
    decreases a.len(),
{
    if a.len() == 0 {
        if b.len() > 0 {
            assert(b.to_set().contains(b[0]));
        }
        assert(a =~= b);
    } else if b.len() == 0 {
        assert(a.to_set().contains(a[0]));
    } else {
        assert(a.to_set().contains(a[0]));
        assert(b.to_set().contains(b[0]));
        let i = choose|i: int| 0 <= i < b.len() && b[i] == a[0];
        let j = choose|j: int| 0 <= j < a.len() && a[j] == b[0];
        if i > 0 && j > 0 {
            assert(coord_lt(b[0], b[i]));
            assert(coord_lt(a[0], a[j]));
        } else if i > 0 {
            assert(coord_lt(b[0], b[i]));
        } else if j > 0 {
            assert(coord_lt(a[0], a[j]));
        }
        assert(a[0] == b[0]);
        let a1 = a.drop_first();
        let b1 = b.drop_first();
        assert forall|x: Coord| a1.to_set().contains(x) <==> b1.to_set().contains(x) by {
            if a1.to_set().contains(x) {
                let k = choose|k: int| 0 <= k < a1.len() && a1[k] == x;
                assert(a.to_set().contains(a[k + 1]));
                let m = choose|m: int| 0 <= m < b.len() && b[m] == x;
                assert(coord_lt(a[0], a[k + 1]));
                if m == 0 {
                    assert(x == a[0]);
                }
                assert(b1[m - 1] == x);
            }
            if b1.to_set().contains(x) {
                let k = choose|k: int| 0 <= k < b1.len() && b1[k] == x;
                assert(b.to_set().contains(b[k + 1]));
                let m = choose|m: int| 0 <= m < a.len() && a[m] == x;
                assert(coord_lt(b[0], b[k + 1]));
                if m == 0 {
                    assert(x == b[0]);
                }
                assert(a1[m - 1] == x);
            }
        }
        assert(a1.to_set() =~= b1.to_set());
        lemma_sorted_same_cubes(a1, b1);
        assert(a =~= seq![a[0]] + a1);
        assert(b =~= seq![b[0]] + b1);
    }
}

/// The orientations given by rotations `0..n` of `piece` all occur in `out`.
pub open spec fn lists_rotations(piece: Seq<Coord>, out: Seq<Vec<Coord>>, n: int) -> bool {
    forall|r: int| 0 <= r < n ==> #[trigger] listed(piece, out, r)
}

/// `s` is strictly increasing in the order of `coords_lt`.
pub open spec fn strictly_sorted(s: Seq<Vec<Coord>>) -> bool {
    forall|i: int, j: int| 0 <= i < j < s.len() ==> coords_lt(#[trigger] s[i]@, #[trigger] s[j]@)
}

/// Applies rotation `r` to one cube.
pub(crate) fn rotate(r: usize, c: Coord) -> (out: Coord)
    requires
        r < NUM_ROTATIONS,
        coord_within(c, COORD_LIMIT as int),
    ensures
        point_of(out) == rotate_point(r as int, point_of(c)),
{
    let (x, y, z) = c;
    match r {
        0 => (x, y, z),
        1 => (-y, x, z),
        2 => (-x, -y, z),
        3 => (y, -x, z),
        4 => (x, -z, y),
        5 => (z, x, y),
        6 => (-x, z, y),
        7 => (-z, -x, y),
        8 => (x, -y, -z),
        9 => (y, x, -z),
        10 => (-x, y, -z),
        11 => (-y, -x, -z),
        12 => (x, z, -y),
        13 => (-z, x, -y),
        14 => (-x, -z, -y),
        15 => (z, -x, -y),
        16 => (z, y, -x),
        17 => (-y, z, -x),
        18 => (-z, -y, -x),
        19 => (y, -z, -x),
        20 => (-z, y, x),
        21 => (-y, -z, x),
        22 => (z, -y, x),
        _ => (y, z, x),
    }
}

proof fn lemma_rotate_within(r: int, c: Coord, l: int)
    requires
        coord_within(c, l),
    ensures
        ({
            let p = rotate_point(r, point_of(c));
            -l <= p.0 <= l && -l <= p.1 <= l && -l <= p.2 <= l
        }),
{
}

proof fn lemma_min_axis_bounds(s: Seq<Coord>, a: int)
    requires
        s.len() > 0,
    ensures
        forall|i: int| 0 <= i < s.len() ==> min_axis(s, a) <= axis(#[trigger] s[i], a),
        exists|i: int| 0 <= i < s.len() && min_axis(s, a) == axis(#[trigger] s[i], a),
    decreases s.len(),
{
    if s.len() > 1 {
        lemma_min_axis_bounds(s.drop_last(), a);
        let m = min_axis(s.drop_last(), a);
        let w = choose|i: int| 0 <= i < s.drop_last().len() && m == axis(#[trigger] s.drop_last()[i], a);
        assert forall|i: int| 0 <= i < s.len() implies min_axis(s, a) <= axis(#[trigger] s[i], a) by {
            if i < s.len() - 1 {
                assert(s[i] == s.drop_last()[i]);
            }
        }
        if axis(s.last(), a) < m {
            assert(min_axis(s, a) == axis(s[s.len() - 1], a));
        } else {
            assert(min_axis(s, a) == axis(s[w], a));
        }
    } else {
        assert(min_axis(s, a) == axis(s[0], a));
    }
}

proof fn lemma_min_axis_within(s: Seq<Coord>, a: int, l: int)
    requires
        s.len() > 0,
        coords_within(s, l),
    ensures
        -l <= min_axis(s, a) <= l,
{
    lemma_min_axis_bounds(s, a);
    let w = choose|i: int| 0 <= i < s.len() && min_axis(s, a) == axis(#[trigger] s[i], a);
    assert(coord_within(s[w], l));
}

proof fn lemma_min_axis_shift(s: Seq<Coord>, t: Seq<Coord>, a: int, k: int)
    requires
        s.len() > 0,
        t.len() == s.len(),
        forall|i: int| 0 <= i < s.len() ==> axis(#[trigger] t[i], a) == axis(s[i], a) - k,
    ensures
        min_axis(t, a) == min_axis(s, a) - k,
    decreases s.len(),
{
    if s.len() > 1 {
        assert forall|i: int| 0 <= i < s.drop_last().len() implies axis(#[trigger] t.drop_last()[i], a) == axis(s.drop_last()[i], a) - k by {
            assert(t.drop_last()[i] == t[i]);
            assert(s.drop_last()[i] == s[i]);
        }
        lemma_min_axis_shift(s.drop_last(), t.drop_last(), a, k);
        assert(axis(t.last(), a) == axis(s.last(), a) - k);
    } else {
        assert(axis(t[0], a) == axis(s[0], a) - k);
    }
}

/// Normalizing yields a zero minimum on every axis.
proof fn lemma_normalized_is_normalized(s: Seq<Coord>, l: int)
    requires
        s.len() > 0,
        0 <= l,
        l <= COORD_LIMIT,
        coords_within(s, l),
    ensures
        is_normalized(normalized(s)),
        normalized(s).len() == s.len(),
{
    let t = normalized(s);
    lemma_min_axis_bounds(s, 0);
    lemma_min_axis_bounds(s, 1);
    lemma_min_axis_bounds(s, 2);
    lemma_min_axis_within(s, 0, l);
    lemma_min_axis_within(s, 1, l);
    lemma_min_axis_within(s, 2, l);
    assert forall|i: int| 0 <= i < s.len() implies axis(#[trigger] t[i], 0) == axis(s[i], 0) - min_axis(s, 0)
        && axis(t[i], 1) == axis(s[i], 1) - min_axis(s, 1)
        && axis(t[i], 2) == axis(s[i], 2) - min_axis(s, 2) by {
        assert(coord_within(s[i], l));
        assert(min_axis(s, 0) <= axis(s[i], 0));
        assert(min_axis(s, 1) <= axis(s[i], 1));
        assert(min_axis(s, 2) <= axis(s[i], 2));
    }
    lemma_min_axis_shift(s, t, 0, min_axis(s, 0));
    lemma_min_axis_shift(s, t, 1, min_axis(s, 1));
    lemma_min_axis_shift(s, t, 2, min_axis(s, 2));
    lemma_min_axis_bounds(t, 0);
    lemma_min_axis_bounds(t, 1);
    lemma_min_axis_bounds(t, 2);
    assert forall|c: Coord| #[trigger] t.to_set().contains(c) implies c.0 >= 0 && c.1 >= 0 && c.2 >= 0 by {
        let i = choose|i: int| 0 <= i < t.len() && t[i] == c;
        assert(axis(t[i], 0) >= 0 && axis(t[i], 1) >= 0 && axis(t[i], 2) >= 0);
    }
    let i0 = choose|i: int| 0 <= i < t.len() && min_axis(t, 0) == axis(#[trigger] t[i], 0);
    let i1 = choose|i: int| 0 <= i < t.len() && min_axis(t, 1) == axis(#[trigger] t[i], 1);
    let i2 = choose|i: int| 0 <= i < t.len() && min_axis(t, 2) == axis(#[trigger] t[i], 2);
    assert(t.to_set().contains(t[i0]) && t[i0].0 == 0);
    assert(t.to_set().contains(t[i1]) && t[i1].1 == 0);
    assert(t.to_set().contains(t[i2]) && t[i2].2 == 0);
}

/// Every orientation keeps the cube count, is normalized, and has its
/// cubes distinct when the piece has.
pub proof fn lemma_orientation_shape(piece: Seq<Coord>, r: int)
    requires
        piece.len() > 0,
        coords_within(piece, COORD_LIMIT as int),
    ensures
        orientation_of(piece, r).len() == piece.len(),
        is_normalized(orientation_of(piece, r)),
        piece.no_duplicates() ==> orientation_of(piece, r).no_duplicates(),
{
    let rs = rotated(piece, r);
    assert forall|i: int| 0 <= i < rs.len() implies coord_within(#[trigger] rs[i], COORD_LIMIT as int) by {
        assert(coord_within(piece[i], COORD_LIMIT as int));
        lemma_rotate_within(r, piece[i], COORD_LIMIT as int);
    }
    lemma_normalized_is_normalized(rs, COORD_LIMIT as int);
    if piece.no_duplicates() {
        let o = orientation_of(piece, r);
        lemma_min_axis_within(rs, 0, COORD_LIMIT as int);
        lemma_min_axis_within(rs, 1, COORD_LIMIT as int);
        lemma_min_axis_within(rs, 2, COORD_LIMIT as int);
        assert forall|i: int, j: int| 0 <= i < o.len() && 0 <= j < o.len() && i != j implies o[i] != o[j] by {
            assert(coord_within(rs[i], COORD_LIMIT as int));
            assert(coord_within(rs[j], COORD_LIMIT as int));
            assert(coord_within(piece[i], COORD_LIMIT as int));
            assert(coord_within(piece[j], COORD_LIMIT as int));
            lemma_rotate_within(r, piece[i], COORD_LIMIT as int);
            lemma_rotate_within(r, piece[j], COORD_LIMIT as int);
            if o[i] == o[j] {
                assert(rs[i] == rs[j]);
                lemma_rotate_point_injective(r, point_of(piece[i]), point_of(piece[j]));
                assert(piece[i] == piece[j]);
            }
        }
    }
}

/// No rotation sends two points to the same one.
proof fn lemma_rotate_point_injective(r: int, p: Point, q: Point)
    requires
        rotate_point(r, p) == rotate_point(r, q),
    ensures
        p == q,
{
}

/// Smallest coordinate along axis `a`.
fn min_along(coords: &Vec<Coord>, a: usize) -> (m: i32)
    requires
        coords.len() > 0,
        a < 3,
    ensures
        m as int == min_axis(coords@, a as int),
{
    let mut m: i32 = if a == 0 { coords[0].0 } else if a == 1 { coords[0].1 } else { coords[0].2 };
    let mut i: usize = 1;
    assert(coords@.subrange(0, 1).len() == 1);
    assert(coords@.subrange(0, 1)[0] == coords@[0]);
    while i < coords.len()
        invariant
            1 <= i <= coords.len(),
            a < 3,
            m as int == min_axis(coords@.subrange(0, i as int), a as int),
        decreases coords.len() - i,
    {
        let c = coords[i];
        let v: i32 = if a == 0 { c.0 } else if a == 1 { c.1 } else { c.2 };
        assert(coords@.subrange(0, i as int + 1).drop_last() =~= coords@.subrange(0, i as int));
        if v < m {
            m = v;
        }
        i = i + 1;
    }
    assert(coords@.subrange(0, coords.len() as int) =~= coords@);
    m
}

/// Translates cubes so that the minimum x, y and z are all zero.
fn normalize_to_origin(mut coords: Vec<Coord>) -> (out: Vec<Coord>)
    requires
        coords.len() > 0,
        coords_within(coords@, COORD_LIMIT as int),
    ensures
        out@ == normalized(coords@),
        coords_within(out@, 2 * COORD_LIMIT as int),
{
    let ghost orig = coords@;
    let min_x = min_along(&coords, 0);
    let min_y = min_along(&coords, 1);
    let min_z = min_along(&coords, 2);
    proof {
        lemma_min_axis_bounds(orig, 0);
        lemma_min_axis_bounds(orig, 1);
        lemma_min_axis_bounds(orig, 2);
        lemma_min_axis_within(orig, 0, COORD_LIMIT as int);
        lemma_min_axis_within(orig, 1, COORD_LIMIT as int);
        lemma_min_axis_within(orig, 2, COORD_LIMIT as int);
    }
    let n = coords.len();
    let mut i: usize = 0;
    while i < n
        invariant
            n == coords.len(),
            n == orig.len(),
            i <= n,
            min_x as int == min_axis(orig, 0),
            min_y as int == min_axis(orig, 1),
            min_z as int == min_axis(orig, 2),
            -COORD_LIMIT <= min_x <= COORD_LIMIT,
            -COORD_LIMIT <= min_y <= COORD_LIMIT,
            -COORD_LIMIT <= min_z <= COORD_LIMIT,
            coords_within(orig, COORD_LIMIT as int),
            forall|j: int| 0 <= j < orig.len() ==> min_axis(orig, 0) <= axis(#[trigger] orig[j], 0),
            forall|j: int| 0 <= j < orig.len() ==> min_axis(orig, 1) <= axis(#[trigger] orig[j], 1),
            forall|j: int| 0 <= j < orig.len() ==> min_axis(orig, 2) <= axis(#[trigger] orig[j], 2),
            forall|j: int| 0 <= j < i ==> #[trigger] coords@[j] == normalized(orig)[j],
            forall|j: int| i <= j < n ==> #[trigger] coords@[j] == orig[j],
            forall|j: int| 0 <= j < i ==> coord_within(#[trigger] coords@[j], 2 * COORD_LIMIT as int),
        decreases n - i,
    {
        let (x, y, z) = coords[i];
        assert(coord_within(orig[i as int], COORD_LIMIT as int));
        assert(min_axis(orig, 0) <= axis(orig[i as int], 0));
        assert(min_axis(orig, 1) <= axis(orig[i as int], 1));
        assert(min_axis(orig, 2) <= axis(orig[i as int], 2));
        coords.set(i, (x - min_x, y - min_y, z - min_z));
        i = i + 1;
    }
    assert(coords@ =~= normalized(orig));
    coords
}

/// Applies rotation `r` to every cube of a piece.
fn rotate_all(piece: &[Coord], r: usize) -> (out: Vec<Coord>)
    requires
        r < NUM_ROTATIONS,
        coords_within(piece@, COORD_LIMIT as int),
    ensures
        out@ == rotated(piece@, r as int),
        coords_within(out@, COORD_LIMIT as int),
{
    let mut out: Vec<Coord> = Vec::new();
    let mut i: usize = 0;
    while i < piece.len()
        invariant
            r < NUM_ROTATIONS,
            i <= piece@.len(),
            coords_within(piece@, COORD_LIMIT as int),
            out@ =~= rotated(piece@, r as int).subrange(0, i as int),
            coords_within(out@, COORD_LIMIT as int),
        decreases piece@.len() - i,
    {
        assert(coord_within(piece@[i as int], COORD_LIMIT as int));
        let c = rotate(r, piece[i]);
        proof {
            lemma_rotate_within(r as int, piece@[i as int], COORD_LIMIT as int);
        }
        out.push(c);
        i = i + 1;
    }
    out
}

/// Compares two cubes in lexicographic order.
fn coord_less(a: Coord, b: Coord) -> (r: bool)
    ensures
        r == coord_lt(a, b),
{
    a.0 < b.0 || (a.0 == b.0 && (a.1 < b.1 || (a.1 == b.1 && a.2 < b.2)))
}

/// Compares two sequences of cubes in lexicographic order.
fn coords_less(a: &Vec<Coord>, b: &Vec<Coord>) -> (r: bool)
    ensures
        r == coords_lt(a@, b@),
{
    let mut i: usize = 0;
    assert(a@.subrange(0, a@.len() as int) =~= a@);
    assert(b@.subrange(0, b@.len() as int) =~= b@);
    while i < a.len() && i < b.len()
        invariant
            i <= a@.len(),
            i <= b@.len(),
            coords_lt(a@, b@) == coords_lt(a@.subrange(i as int, a@.len() as int), b@.subrange(i as int, b@.len() as int)),
        decreases a@.len() - i,
    {
        let x = a[i];
        let y = b[i];
        let ghost sa = a@.subrange(i as int, a@.len() as int);
        let ghost sb = b@.subrange(i as int, b@.len() as int);
        assert(sa[0] == x && sb[0] == y);
        if coord_less(x, y) {
            return true;
        }
        if !(x.0 == y.0 && x.1 == y.1 && x.2 == y.2) {
            return false;
        }
        assert(sa.drop_first() =~= a@.subrange(i as int + 1, a@.len() as int));
        assert(sb.drop_first() =~= b@.subrange(i as int + 1, b@.len() as int));
        i = i + 1;
    }
    i < b.len()
}

/// `x` occurs in `s`.
pub open spec fn occurs(s: Seq<Vec<Coord>>, x: Seq<Coord>) -> bool {
    exists|i: int| 0 <= i < s.len() && #[trigger] s[i]@ == x
}

/// Inserts `o` into a strictly sorted list unless it is already there.
fn insert_sorted(out: &mut Vec<Vec<Coord>>, o: Vec<Coord>)
    requires
        strictly_sorted(old(out)@),
    ensures
        strictly_sorted(final(out)@),
        final(out)@.len() <= old(out)@.len() + 1,
        occurs(final(out)@, o@),
        forall|x: Seq<Coord>| occurs(old(out)@, x) ==> #[trigger] occurs(final(out)@, x),
        forall|i: int|
            0 <= i < final(out)@.len() ==> #[trigger] final(out)@[i]@ == o@ || occurs(
                old(out)@,
                final(out)@[i]@,
            ),
{
    // find the first position whose entry is not smaller than `o`
    let mut pos: usize = 0;
    while pos < out.len() && coords_less(&out[pos], &o)
        invariant
            pos <= out@.len(),
            forall|i: int| 0 <= i < pos ==> coords_lt(#[trigger] out@[i]@, o@),
        decreases out@.len() - pos,
    {
        pos = pos + 1;
    }
    let duplicate = pos < out.len() && !coords_less(&o, &out[pos]);
    if duplicate {
        proof {
            lemma_coords_lt_total(o@, out@[pos as int]@);
            assert(out@[pos as int]@ == o@);
        }
    } else {
        let ghost old_out = out@;
        proof {
            if pos < old_out.len() {
                lemma_coords_lt_total(o@, old_out[pos as int]@);
            }
            assert forall|j: int| pos <= j < old_out.len() implies coords_lt(o@, #[trigger] old_out[j]@) by {
                if j > pos {
                    lemma_coords_lt_transitive(o@, old_out[pos as int]@, old_out[j]@);
                }
            }
        }
        out.insert(pos, o);
        proof {
            assert forall|i: int, j: int| 0 <= i < j < out@.len() implies coords_lt(#[trigger] out@[i]@, #[trigger] out@[j]@) by {
                if i < pos && j == pos {
                } else if i < pos && j > pos {
                    assert(out@[j] == old_out[j - 1]);
                    assert(coords_lt(old_out[i]@, o@));
                    lemma_coords_lt_transitive(old_out[i]@, o@, old_out[j - 1]@);
                } else if i == pos {
                    assert(out@[j] == old_out[j - 1]);
                } else if i > pos {
                    assert(out@[j] == old_out[j - 1]);
                    assert(out@[i] == old_out[i - 1]);
                }
            }
            assert(out@[pos as int]@ == o@);
            assert forall|x: Seq<Coord>| occurs(old_out, x) implies #[trigger] occurs(out@, x) by {
                let w = choose|i: int| 0 <= i < old_out.len() && #[trigger] old_out[i]@ == x;
                if w < pos {
                    assert(out@[w] == old_out[w]);
                } else {
                    assert(out@[w + 1] == old_out[w]);
                }
            }
            assert forall|i: int| 0 <= i < out@.len() implies #[trigger] out@[i]@ == o@ || occurs(old_out, out@[i]@) by {
                if i < pos {
                    assert(out@[i] == old_out[i]);
                } else if i > pos {
                    assert(out@[i] == old_out[i - 1]);
                }
            }
        }
    }
}

/// Puts distinct cubes in increasing order.
fn sort_cubes(cubes: Vec<Coord>) -> (out: Vec<Coord>)
    requires
        cubes@.no_duplicates(),
    ensures
        cubes_sorted(out@),
        out@.to_set() == cubes@.to_set(),
        out@.len() == cubes@.len(),
        forall|i: int| 0 <= i < out@.len() ==> cubes@.contains(#[trigger] out@[i]),
{
    let mut out: Vec<Coord> = Vec::new();
    let mut i: usize = 0;
    assert(cubes@.subrange(0, 0).to_set() =~= out@.to_set());
    while i < cubes.len()
        invariant
            cubes@.no_duplicates(),
            i <= cubes@.len(),
            cubes_sorted(out@),
            out@.to_set() == cubes@.subrange(0, i as int).to_set(),
            out@.len() == i,
        decreases cubes@.len() - i,
    {
        let c = cubes[i];
        let mut pos: usize = 0;
        while pos < out.len() && coord_less(out[pos], c)
            invariant
                pos <= out@.len(),
                forall|k: int| 0 <= k < pos ==> coord_lt(#[trigger] out@[k], c),
            decreases out@.len() - pos,
        {
            pos = pos + 1;
        }
        let ghost before = out@;
        proof {
            if before.to_set().contains(c) {
                let k = choose|k: int| 0 <= k < i && cubes@.subrange(0, i as int)[k] == c;
                assert(cubes@[k] == cubes@[i as int]);
            }
            assert(!before.contains(c));
        }
        out.insert(pos, c);
        proof {
            assert forall|a: int, b: int| 0 <= a < b < out@.len() implies coord_lt(#[trigger] out@[a], #[trigger] out@[b]) by {
                if b == pos {
                    assert(out@[a] == before[a]);
                } else if a == pos {
                    assert(out@[b] == before[b - 1]);
                    assert(before[pos as int] != c);
                    if b - 1 > pos {
                        assert(coord_lt(before[pos as int], before[b - 1]));
                    }
                } else if a < pos && b > pos {
                    assert(out@[a] == before[a]);
                    assert(out@[b] == before[b - 1]);
                    assert(before[pos as int] != c);
                } else if a > pos {
                    assert(out@[a] == before[a - 1]);
                    assert(out@[b] == before[b - 1]);
                } else {
                    assert(out@[a] == before[a]);
                    assert(out@[b] == before[b]);
                }
            }
            assert(cubes@.subrange(0, i as int + 1) =~= cubes@.subrange(0, i as int).push(c));
            assert forall|x: Coord| out@.to_set().contains(x) <==> cubes@.subrange(0, i as int + 1).to_set().contains(x) by {
                if out@.to_set().contains(x) {
                    let k = choose|k: int| 0 <= k < out@.len() && out@[k] == x;
                    if k < pos {
                        assert(before[k] == x);
                        assert(before.to_set().contains(x));
                    } else if k > pos {
                        assert(before[k - 1] == x);
                        assert(before.to_set().contains(x));
                    }
                    if x != c {
                        let m = choose|m: int| 0 <= m < i && cubes@.subrange(0, i as int)[m] == x;
                        assert(cubes@.subrange(0, i as int + 1)[m] == x);
                    } else {
                        assert(cubes@.subrange(0, i as int + 1)[i as int] == x);
                    }
                }
                if cubes@.subrange(0, i as int + 1).to_set().contains(x) {
                    let m = choose|m: int| 0 <= m < i + 1 && #[trigger] cubes@.subrange(0, i as int + 1)[m] == x;
                    if m < i {
                        assert(cubes@.subrange(0, i as int)[m] == x);
                        assert(before.to_set().contains(x));
                        let k = choose|k: int| 0 <= k < before.len() && before[k] == x;
                        if k < pos {
                            assert(out@[k] == x);
                        } else {
                            assert(out@[k + 1] == x);
                        }
                    } else {
                        assert(out@[pos as int] == x);
                    }
                }
            }
            assert(out@.to_set() =~= cubes@.subrange(0, i as int + 1).to_set());
        }
        i = i + 1;
    }
    assert(cubes@.subrange(0, cubes@.len() as int) =~= cubes@);
    assert forall|k: int| 0 <= k < out@.len() implies cubes@.contains(#[trigger] out@[k]) by {
        assert(out@.to_set().contains(out@[k]));
    }
    out
}

/// Adding orientation `r` (cubes sorted) to a list of orientations keeps
/// the list's properties and lists one more rotation.
proof fn lemma_after_insert(piece: Seq<Coord>, old_out: Seq<Vec<Coord>>, out: Seq<Vec<Coord>>, s: Seq<Coord>, r: int)
    requires
        occurs(out, s),
        forall|x: Seq<Coord>| occurs(old_out, x) ==> #[trigger] occurs(out, x),
        forall|i: int| 0 <= i < out.len() ==> #[trigger] out[i]@ == s || occurs(old_out, out[i]@),
        lists_rotations(piece, old_out, r),
        forall|i: int| 0 <= i < old_out.len() ==> is_orientation_of(piece, #[trigger] old_out[i]@),
        forall|i: int| 0 <= i < old_out.len() ==> cubes_sorted(#[trigger] old_out[i]@),
        forall|i: int| 0 <= i < old_out.len() ==> coords_within(#[trigger] old_out[i]@, 2 * COORD_LIMIT as int),
        is_orientation_of(piece, s),
        cubes_sorted(s),
        coords_within(s, 2 * COORD_LIMIT as int),
        s.to_set() == orientation_of(piece, r).to_set(),
    ensures
        lists_rotations(piece, out, r + 1),
        forall|i: int| 0 <= i < out.len() ==> is_orientation_of(piece, #[trigger] out[i]@),
        forall|i: int| 0 <= i < out.len() ==> cubes_sorted(#[trigger] out[i]@),
        forall|i: int| 0 <= i < out.len() ==> coords_within(#[trigger] out[i]@, 2 * COORD_LIMIT as int),
{
    assert forall|q: int| 0 <= q < r + 1 implies #[trigger] listed(piece, out, q) by {
        if q < r {
            assert(listed(piece, old_out, q));
            let w = choose|i: int| 0 <= i < old_out.len() && (#[trigger] old_out[i])@.to_set() == orientation_of(piece, q).to_set();
            assert(old_out[w]@ == old_out[w]@);
            assert(occurs(old_out, old_out[w]@));
            assert(occurs(out, old_out[w]@));
            let k = choose|i: int| 0 <= i < out.len() && #[trigger] out[i]@ == old_out[w]@;
            assert(out[k]@.to_set() == orientation_of(piece, q).to_set());
        } else {
            let k = choose|i: int| 0 <= i < out.len() && #[trigger] out[i]@ == s;
            assert(out[k]@.to_set() == orientation_of(piece, q).to_set());
        }
    }
    assert forall|i: int| 0 <= i < out.len() implies is_orientation_of(piece, #[trigger] out[i]@)
        && cubes_sorted(out[i]@) && coords_within(out[i]@, 2 * COORD_LIMIT as int) by {
        if out[i]@ != s {
            assert(occurs(old_out, out[i]@));
            let w = choose|j: int| 0 <= j < old_out.len() && #[trigger] old_out[j]@ == out[i]@;
            assert(is_orientation_of(piece, old_out[w]@));
            assert(cubes_sorted(old_out[w]@));
            assert(coords_within(old_out[w]@, 2 * COORD_LIMIT as int));
        }
    }
}

/// Generates the distinct orientations of a piece.
///
/// Applies all 24 rotations, normalizes each result so that the minimum
/// coordinates are at the origin, sorts its cubes, and keeps one copy of
/// each cube set, in increasing lexicographic order. Symmetric pieces have
/// fewer than 24 orientations.
pub fn all_orientations(piece: &[Coord]) -> (out: Vec<Vec<Coord>>)
    requires
        piece@.len() > 0,
        piece@.no_duplicates(),
        coords_within(piece@, COORD_LIMIT as int),
    ensures
        out@.len() <= NUM_ROTATIONS,
        strictly_sorted(out@),
        forall|i: int| 0 <= i < out@.len() ==> is_orientation_of(piece@, #[trigger] out@[i]@),
        forall|i: int| 0 <= i < out@.len() ==> cubes_sorted(#[trigger] out@[i]@),
        lists_rotations(piece@, out@, NUM_ROTATIONS as int),
        forall|i: int|
            0 <= i < out@.len() ==> coords_within(#[trigger] out@[i]@, 2 * COORD_LIMIT as int),
        forall|i: int|
            0 <= i < out@.len() ==> #[trigger] out@[i]@.len() == piece@.len() && is_normalized(
                out@[i]@,
            ),
        forall|i: int, j: int|
            0 <= i < j < out@.len() ==> (#[trigger] out@[i])@.to_set() != (#[trigger] out@[j])@.to_set(),
{
    let mut out: Vec<Vec<Coord>> = Vec::new();
    let mut r: usize = 0;
    while r < NUM_ROTATIONS
        invariant
            r <= NUM_ROTATIONS,
            piece@.len() > 0,
            piece@.no_duplicates(),
            coords_within(piece@, COORD_LIMIT as int),
            out@.len() <= r,
            strictly_sorted(out@),
            forall|i: int| 0 <= i < out@.len() ==> is_orientation_of(piece@, #[trigger] out@[i]@),
            forall|i: int| 0 <= i < out@.len() ==> cubes_sorted(#[trigger] out@[i]@),
            lists_rotations(piece@, out@, r as int),
            forall|i: int|
                0 <= i < out@.len() ==> coords_within(#[trigger] out@[i]@, 2 * COORD_LIMIT as int),
        decreases NUM_ROTATIONS - r,
    {
        let rotated_coords = rotate_all(piece, r);
        let o = normalize_to_origin(rotated_coords);
        assert(o@ == orientation_of(piece@, r as int));
        proof {
            lemma_orientation_shape(piece@, r as int);
        }
        let ghost unsorted = o@;
        let sorted = sort_cubes(o);
        proof {
            assert(is_orientation_of(piece@, sorted@));
            assert forall|k: int| 0 <= k < sorted@.len() implies coord_within(#[trigger] sorted@[k], 2 * COORD_LIMIT as int) by {
                assert(unsorted.contains(sorted@[k]));
            }
        }
        let ghost old_out = out@;
        let ghost s = sorted@;
        insert_sorted(&mut out, sorted);
        proof {
            lemma_after_insert(piece@, old_out, out@, s, r as int);
        }
        r = r + 1;
    }
    assert forall|i: int| 0 <= i < out@.len() implies #[trigger] out@[i]@.len() == piece@.len() && is_normalized(out@[i]@) by {
        let q = choose|q: int| 0 <= q < NUM_ROTATIONS && out@[i]@.to_set() == #[trigger] orientation_of(piece@, q).to_set();
        lemma_orientation_shape(piece@, q);
    }
    assert forall|i: int, j: int| 0 <= i < j < out@.len() implies (#[trigger] out@[i])@.to_set() != (#[trigger] out@[j])@.to_set() by {
        assert(coords_lt(out@[i]@, out@[j]@));
        lemma_coords_lt_irreflexive(out@[i]@);
        if out@[i]@.to_set() == out@[j]@.to_set() {
            lemma_sorted_same_cubes(out@[i]@, out@[j]@);
        }
    }
    out
}

} // verus!
