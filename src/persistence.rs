//! The saved forms of a solution list: a text listing and a binary file.
//!
//! Binary format (little endian):
//! - 4 bytes: magic (`BLKR`)
//! - u8: format version
//! - u8: puzzle dimension
//! - u8: puzzle cell count
//! - u8: puzzle piece count
//! - u32: solution count
//! - per solution:
//!   - u32: piece count
//!   - per piece:
//!     - u32: piece index (0-based)
//!     - u32: cube count
//!     - per cube: 3 bytes (x, y, z)
//!
//! A legacy variant without magic and header starts directly with the
//! solution count. Reading tells the two apart by the first four bytes.

use vstd::prelude::*;

use crate::grid::{format_solution, grid_of, grid_text, push_char, push_str, solution_fits_grid, MAX_DIM};
use crate::pieces::{Coord, PlacedPiece, MAX_CUBES, MAX_PIECES};

verus! {

/// The first four bytes of a current-format file: `BLKR`.
pub open spec fn file_magic() -> Seq<u8> {
    seq![66u8, 76u8, 75u8, 82u8]
}

/// The format version written by `save`.
pub const FILE_VERSION: u8 = 1;

/// The four little-endian bytes of `v`.
pub open spec fn u32_le(v: u32) -> Seq<u8> {
    seq![(v % 256) as u8, ((v / 256) % 256) as u8, ((v / 65536) % 256) as u8, (v / 16777216) as u8]
}

/// The number whose little-endian bytes start `b`.
pub open spec fn le_u32(b: Seq<u8>) -> int {
    b[0] + 256 * b[1] + 65536 * b[2] + 16777216 * b[3]
}

/// A saved piece: its index and its cubes.
pub type Record = (int, Seq<Coord>);

/// The saved form of a placed piece.
pub open spec fn record_of(p: PlacedPiece) -> Record {
    (p.piece_index as int, p.cubes_view())
}

/// The saved form of a solution.
pub open spec fn records_of(s: Seq<PlacedPiece>) -> Seq<Record> {
    s.map_values(|p: PlacedPiece| record_of(p))
}

/// The saved form of a list of solutions.
pub open spec fn solution_records(solutions: Seq<Vec<PlacedPiece>>) -> Seq<Seq<Record>> {
    solutions.map_values(|s: Vec<PlacedPiece>| records_of(s@))
}

pub open spec fn encode_cubes(cubes: Seq<Coord>) -> Seq<u8>
    decreases cubes.len(),
{
    if cubes.len() == 0 {
        Seq::empty()
    } else {
        let c = cubes.last();
        encode_cubes(cubes.drop_last()) + seq![c.0 as u8, c.1 as u8, c.2 as u8]
    }
}

pub open spec fn encode_piece(p: PlacedPiece) -> Seq<u8> {
    u32_le(p.piece_index as u32) + u32_le(p.cube_count as u32) + encode_cubes(p.cubes_view())
}

pub open spec fn encode_pieces(s: Seq<PlacedPiece>) -> Seq<u8>
    decreases s.len(),
{
    if s.len() == 0 {
        Seq::empty()
    } else {
        encode_pieces(s.drop_last()) + encode_piece(s.last())
    }
}

pub open spec fn encode_solution(s: Seq<PlacedPiece>) -> Seq<u8> {
    u32_le(s.len() as u32) + encode_pieces(s)
}

pub open spec fn encode_solutions(solutions: Seq<Vec<PlacedPiece>>) -> Seq<u8>
    decreases solutions.len(),
{
    if solutions.len() == 0 {
        Seq::empty()
    } else {
        encode_solutions(solutions.drop_last()) + encode_solution(solutions.last()@)
    }
}

/// The header of a current-format file.
pub open spec fn file_header(dim: usize, grid_size: usize, num_pieces: usize) -> Seq<u8> {
    file_magic() + seq![FILE_VERSION, dim as u8, grid_size as u8, num_pieces as u8]
}

/// The binary file of a solution list.
pub open spec fn binary_file(
    dim: usize,
    grid_size: usize,
    num_pieces: usize,
    solutions: Seq<Vec<PlacedPiece>>,
) -> Seq<u8> {
    file_header(dim, grid_size, num_pieces) + u32_le(solutions.len() as u32) + encode_solutions(solutions)
}

/// Reads `n` cubes, each coordinate below `dim`.
pub open spec fn decode_cubes(b: Seq<u8>, n: nat, dim: int) -> Option<(Seq<Coord>, Seq<u8>)>
    decreases n,
{
    if n == 0 {
        Some((Seq::empty(), b))
    } else {
        match decode_cubes(b, (n - 1) as nat, dim) {
            None => None,
            Some((cubes, rest)) => {
                if rest.len() < 3 || rest[0] >= dim || rest[1] >= dim || rest[2] >= dim {
                    None
                } else {
                    Some((cubes.push((rest[0] as i32, rest[1] as i32, rest[2] as i32)), rest.skip(3)))
                }
            },
        }
    }
}

/// Reads one piece: an index below `num_pieces` not among `before`, a cube
/// count from 1 to `MAX_CUBES`, and the cubes.
pub open spec fn decode_piece(b: Seq<u8>, dim: int, num_pieces: int, before: Seq<Record>) -> Option<(Record, Seq<u8>)> {
    if b.len() < 8 {
        None
    } else {
        let index = le_u32(b);
        let count = le_u32(b.skip(4));
        if index >= num_pieces || has_piece(before, index) {
            None
        } else if count == 0 || count > MAX_CUBES {
            None
        } else {
            match decode_cubes(b.skip(8), count as nat, dim) {
                None => None,
                Some((cubes, rest)) => Some(((index, cubes), rest)),
            }
        }
    }
}

/// Reads `n` pieces of one solution.
pub open spec fn decode_pieces(b: Seq<u8>, n: nat, dim: int, num_pieces: int) -> Option<(Seq<Record>, Seq<u8>)>
    decreases n,
{
    if n == 0 {
        Some((Seq::empty(), b))
    } else {
        match decode_pieces(b, (n - 1) as nat, dim, num_pieces) {
            None => None,
            Some((pieces, rest)) => match decode_piece(rest, dim, num_pieces, pieces) {
                None => None,
                Some((p, rest2)) => Some((pieces.push(p), rest2)),
            },
        }
    }
}

/// Piece index `i` occurs.
pub open spec fn has_piece(pieces: Seq<Record>, i: int) -> bool {
    exists|k: int| 0 <= k < pieces.len() && (#[trigger] pieces[k]).0 == i
}

/// Every piece index below `num_pieces` occurs.
pub open spec fn has_every_piece(pieces: Seq<Record>, num_pieces: int) -> bool {
    forall|i: int| 0 <= i < num_pieces ==> #[trigger] has_piece(pieces, i)
}

/// Reads one solution: a piece count equal to `num_pieces`, then every
/// piece once.
pub open spec fn decode_solution(b: Seq<u8>, dim: int, num_pieces: int) -> Option<(Seq<Record>, Seq<u8>)> {
    if b.len() < 4 || le_u32(b) != num_pieces {
        None
    } else {
        match decode_pieces(b.skip(4), num_pieces as nat, dim, num_pieces) {
            None => None,
            Some((pieces, rest)) => if has_every_piece(pieces, num_pieces) {
                Some((pieces, rest))
            } else {
                None
            },
        }
    }
}

/// Reads `n` solutions.
pub open spec fn decode_solutions(b: Seq<u8>, n: nat, dim: int, num_pieces: int) -> Option<(Seq<Seq<Record>>, Seq<u8>)>
    decreases n,
{
    if n == 0 {
        Some((Seq::empty(), b))
    } else {
        match decode_solutions(b, (n - 1) as nat, dim, num_pieces) {
            None => None,
            Some((solutions, rest)) => match decode_solution(rest, dim, num_pieces) {
                None => None,
                Some((s, rest2)) => Some((solutions.push(s), rest2)),
            },
        }
    }
}

/// Where the solution count of a file starts, or `None` when the header
/// does not match the puzzle.
pub open spec fn count_offset(b: Seq<u8>, dim: usize, grid_size: usize, num_pieces: usize) -> Option<int> {
    if b.len() < 4 {
        None
    } else if b.take(4) == file_magic() {
        if b.len() < 8 || b[4] != FILE_VERSION || b[5] != dim || b[6] != grid_size || b[7] != num_pieces {
            None
        } else {
            Some(8)
        }
    } else {
        Some(0)
    }
}

/// The solutions that a file holds for a puzzle, or `None` when the file
/// is short, has a header of another puzzle, or holds a malformed record.
/// Bytes after the last solution are ignored.
pub open spec fn decode_file(b: Seq<u8>, dim: usize, grid_size: usize, num_pieces: usize) -> Option<Seq<Seq<Record>>> {
    match count_offset(b, dim, grid_size, num_pieces) {
        None => None,
        Some(o) => if b.len() < o + 4 {
            None
        } else {
            match decode_solutions(b.skip(o + 4), le_u32(b.skip(o)) as nat, dim as int, num_pieces as int) {
                None => None,
                Some((solutions, rest)) => Some(solutions),
            }
        },
    }
}

/// The solution count that `count` reports: read from the header of a
/// current-format file, found by decoding a legacy one.
pub open spec fn count_file(b: Seq<u8>, dim: usize, grid_size: usize, num_pieces: usize) -> Option<int> {
    match count_offset(b, dim, grid_size, num_pieces) {
        None => None,
        Some(o) => if b.len() < o + 4 {
            None
        } else if o == 8 {
            Some(le_u32(b.skip(8)))
        } else {
            match decode_file(b, dim, grid_size, num_pieces) {
                None => None,
                Some(solutions) => Some(solutions.len() as int),
            }
        },
    }
}

/// Appends the little-endian bytes of `v`.
fn push_u32(out: &mut Vec<u8>, v: u32)
    ensures
        final(out)@ == old(out)@ + u32_le(v),
{
    out.push((v % 256) as u8);
    out.push(((v / 256) % 256) as u8);
    out.push(((v / 65536) % 256) as u8);
    out.push((v / 16777216) as u8);
    assert(final(out)@ =~= old(out)@ + u32_le(v));
}

/// Reads a little-endian `u32` at `pos`, if four bytes are there.
fn read_u32(bytes: &[u8], pos: usize) -> (r: Option<u32>)
    ensures
        match r {
            Some(v) => pos + 4 <= bytes@.len() && v as int == le_u32(bytes@.skip(pos as int)),
            None => pos + 4 > bytes@.len(),
        },
{
    if pos > bytes.len() || bytes.len() - pos < 4 {
        return None;
    }
    let v = bytes[pos] as u32 + 256 * (bytes[pos + 1] as u32) + 65536 * (bytes[pos + 2] as u32) + 16777216
        * (bytes[pos + 3] as u32);
    Some(v)
}

/// The mask with one bit for each of `num_pieces` pieces.
pub fn expected_piece_mask(num_pieces: usize) -> (m: u32)
    requires
        num_pieces <= MAX_PIECES,
    ensures
        forall|i: u32| i < 32 ==> (((m >> i) & 1u32 == 1u32) <==> i < num_pieces),
{
    if num_pieces == 32 {
        assert forall|i: u32| i < 32 implies ((0xffff_ffffu32 >> i) & 1u32 == 1u32) by {
            assert(i < 32 ==> (0xffff_ffffu32 >> i) & 1u32 == 1u32) by (bit_vector);
        }
        u32::MAX
    } else {
        let p = num_pieces as u32;
        assert(1u32 << p >= 1) by (bit_vector)
            requires
                p < 32,
        ;
        let m = (1u32 << p) - 1;
        assert forall|i: u32| i < 32 implies (((m >> i) & 1u32 == 1u32) <==> i < p) by {
            assert(p < 32 && i < 32 && m == ((1u32 << p) - 1) as u32 ==> (((m >> i) & 1u32 == 1u32) <==> i < p))
                by (bit_vector);
        }
        m
    }
}

proof fn lemma_decode_cubes_stays_none(b: Seq<u8>, i: nat, n: nat, dim: int)
    requires
        i <= n,
        decode_cubes(b, i, dim) is None,
    ensures
        decode_cubes(b, n, dim) is None,
    decreases n - i,
{
    if i < n {
        lemma_decode_cubes_stays_none(b, i, (n - 1) as nat, dim);
    }
}

proof fn lemma_decode_pieces_stays_none(b: Seq<u8>, i: nat, n: nat, dim: int, num_pieces: int)
    requires
        i <= n,
        decode_pieces(b, i, dim, num_pieces) is None,
    ensures
        decode_pieces(b, n, dim, num_pieces) is None,
    decreases n - i,
{
    if i < n {
        lemma_decode_pieces_stays_none(b, i, (n - 1) as nat, dim, num_pieces);
    }
}

proof fn lemma_decode_solutions_stays_none(b: Seq<u8>, i: nat, n: nat, dim: int, num_pieces: int)
    requires
        i <= n,
        decode_solutions(b, i, dim, num_pieces) is None,
    ensures
        decode_solutions(b, n, dim, num_pieces) is None,
    decreases n - i,
{
    if i < n {
        lemma_decode_solutions_stays_none(b, i, (n - 1) as nat, dim, num_pieces);
    }
}

/// Reads `count` cubes at `pos`; returns them and the position after them.
fn read_cubes(bytes: &[u8], pos: usize, count: usize, dim: usize) -> (r: Option<([Coord; MAX_CUBES], usize)>)
    requires
        count <= MAX_CUBES,
        pos <= bytes@.len(),
    ensures
        match (r, decode_cubes(bytes@.skip(pos as int), count as nat, dim as int)) {
            (Some((positions, end)), Some((cubes, rest))) => {
                &&& positions@.subrange(0, count as int) == cubes
                &&& end <= bytes@.len()
                &&& rest == bytes@.skip(end as int)
            },
            (None, None) => true,
            _ => false,
        },
{
    let ghost b = bytes@.skip(pos as int);
    let mut positions: [Coord; MAX_CUBES] = [(0, 0, 0), (0, 0, 0), (0, 0, 0), (0, 0, 0), (0, 0, 0)];
    let mut p = pos;
    let mut i: usize = 0;
    assert(bytes@.skip(pos as int) == b);
    while i < count
        invariant
            count <= MAX_CUBES,
            i <= count,
            p <= bytes@.len(),
            b == bytes@.skip(pos as int),
            decode_cubes(b, i as nat, dim as int) == Some((positions@.subrange(0, i as int), bytes@.skip(p as int))),
        decreases count - i,
    {
        let ghost rest = bytes@.skip(p as int);
        if bytes.len() - p < 3 {
            proof {
                lemma_decode_cubes_stays_none(b, (i + 1) as nat, count as nat, dim as int);
            }
            return None;
        }
        let x = bytes[p];
        let y = bytes[p + 1];
        let z = bytes[p + 2];
        assert(rest[0] == x && rest[1] == y && rest[2] == z);
        if x as usize >= dim || y as usize >= dim || z as usize >= dim {
            // reject cubes outside the puzzle's grid
            proof {
                lemma_decode_cubes_stays_none(b, (i + 1) as nat, count as nat, dim as int);
            }
            return None;
        }
        let ghost before = positions@;
        positions[i] = (x as i32, y as i32, z as i32);
        proof {
            assert(rest.skip(3) =~= bytes@.skip(p as int + 3));
            assert(positions@.subrange(0, i as int + 1) =~= before.subrange(0, i as int).push((x as i32, y as i32, z as i32)));
        }
        p = p + 3;
        i = i + 1;
    }
    Some((positions, p))
}

/// Reads the pieces of one solution at `pos`, rejecting out-of-range and
/// repeated piece indices and malformed cube lists.
fn read_pieces(bytes: &[u8], pos: usize, count: usize, dim: usize) -> (r: Option<(Vec<PlacedPiece>, usize)>)
    requires
        count <= MAX_PIECES,
        pos <= bytes@.len(),
    ensures
        match (r, decode_pieces(bytes@.skip(pos as int), count as nat, dim as int, count as int)) {
            (Some((pieces, end)), Some((records, rest))) => {
                &&& records_of(pieces@) == records
                &&& pieces@.len() == count
                &&& end <= bytes@.len()
                &&& rest == bytes@.skip(end as int)
                &&& forall|k: int| 0 <= k < pieces@.len() ==> (#[trigger] pieces@[k]).cube_count <= MAX_CUBES
            },
            (None, None) => true,
            _ => false,
        },
{
    let ghost b = bytes@.skip(pos as int);
    let ghost n = count as int;
    let mut seen: Vec<bool> = Vec::new();
    while seen.len() < count
        invariant
            seen@.len() <= count,
            forall|i: int| 0 <= i < seen@.len() ==> !(#[trigger] seen@[i]),
        decreases count - seen@.len(),
    {
        seen.push(false);
    }
    let mut pieces: Vec<PlacedPiece> = Vec::new();
    let mut p = pos;
    let mut k: usize = 0;
    assert(records_of(pieces@) =~= Seq::<Record>::empty());
    while k < count
        invariant
            count <= MAX_PIECES,
            k <= count,
            p <= bytes@.len(),
            b == bytes@.skip(pos as int),
            n == count,
            seen@.len() == count,
            pieces@.len() == k,
            decode_pieces(b, k as nat, dim as int, n) == Some((records_of(pieces@), bytes@.skip(p as int))),
            forall|i: int| 0 <= i < count ==> (#[trigger] seen@[i] <==> has_piece(records_of(pieces@), i)),
            forall|j: int| 0 <= j < pieces@.len() ==> (#[trigger] pieces@[j]).cube_count <= MAX_CUBES,
        decreases count - k,
    {
        let ghost rest = bytes@.skip(p as int);
        let ghost recs = records_of(pieces@);
        if bytes.len() - p < 8 {
            proof {
                lemma_decode_pieces_stays_none(b, (k + 1) as nat, count as nat, dim as int, n);
            }
            return None;
        }
        let index = match read_u32(bytes, p) {
            Some(v) => v as usize,
            None => {
                proof {
                    lemma_decode_pieces_stays_none(b, (k + 1) as nat, count as nat, dim as int, n);
                }
                return None;
            },
        };
        let cube_count = match read_u32(bytes, p + 4) {
            Some(v) => v as usize,
            None => {
                proof {
                    lemma_decode_pieces_stays_none(b, (k + 1) as nat, count as nat, dim as int, n);
                }
                return None;
            },
        };
        proof {
            assert(rest.len() >= 8);
            assert(le_u32(rest) == index as int);
            assert(rest.skip(4) =~= bytes@.skip(p as int + 4));
        }
        if index >= count || seen[index] {
            // reject out-of-range and repeated piece indices
            proof {
                lemma_decode_pieces_stays_none(b, (k + 1) as nat, count as nat, dim as int, n);
            }
            return None;
        }
        if cube_count == 0 || cube_count > MAX_CUBES {
            proof {
                lemma_decode_pieces_stays_none(b, (k + 1) as nat, count as nat, dim as int, n);
            }
            return None;
        }
        proof {
            assert(rest.skip(8) =~= bytes@.skip(p as int + 8));
        }
        let (positions, end) = match read_cubes(bytes, p + 8, cube_count, dim) {
            Some(r) => r,
            None => {
                proof {
                    lemma_decode_pieces_stays_none(b, (k + 1) as nat, count as nat, dim as int, n);
                }
                return None;
            },
        };
        let placed = PlacedPiece { piece_index: index, positions, cube_count: cube_count as u8 };
        pieces.push(placed);
        seen.set(index, true);
        proof {
            assert(records_of(pieces@) =~= recs.push(record_of(placed)));
            assert(placed.cubes_view() == positions@.subrange(0, cube_count as int));
            assert forall|i: int| 0 <= i < count implies (#[trigger] seen@[i] <==> has_piece(records_of(pieces@), i)) by {
                let r2 = records_of(pieces@);
                if has_piece(recs, i) {
                    let w = choose|j: int| 0 <= j < recs.len() && (#[trigger] recs[j]).0 == i;
                    assert(r2[w] == recs[w]);
                }
                if has_piece(r2, i) {
                    let w = choose|j: int| 0 <= j < r2.len() && (#[trigger] r2[j]).0 == i;
                    if w < recs.len() {
                        assert(r2[w] == recs[w]);
                    }
                }
                if i == index {
                    assert(r2[r2.len() - 1].0 == i);
                }
            }
        }
        p = end;
        k = k + 1;
    }
    Some((pieces, p))
}

/// Reads one solution at `pos`: its piece count must equal `num_pieces`,
/// and every piece must occur once.
fn read_solution(bytes: &[u8], pos: usize, dim: usize, num_pieces: usize) -> (r: Option<(Vec<PlacedPiece>, usize)>)
    requires
        num_pieces <= MAX_PIECES,
        pos <= bytes@.len(),
    ensures
        match (r, decode_solution(bytes@.skip(pos as int), dim as int, num_pieces as int)) {
            (Some((pieces, end)), Some((records, rest))) => {
                &&& records_of(pieces@) == records
                &&& end <= bytes@.len()
                &&& rest == bytes@.skip(end as int)
            },
            (None, None) => true,
            _ => false,
        },
{
    let ghost b = bytes@.skip(pos as int);
    if bytes.len() - pos < 4 {
        return None;
    }
    let piece_count = match read_u32(bytes, pos) {
        Some(v) => v as usize,
        None => {
            return None;
        },
    };
    if piece_count != num_pieces {
        return None;
    }
    proof {
        assert(b.skip(4) =~= bytes@.skip(pos as int + 4));
    }
    let (pieces, end) = match read_pieces(bytes, pos + 4, num_pieces, dim) {
        Some(r) => r,
        None => {
            return None;
        },
    };
    // every piece must appear exactly once
    let ghost recs = records_of(pieces@);
    let ghost parsed = decode_pieces(b.skip(4), num_pieces as nat, dim as int, num_pieces as int);
    assert(parsed == Some((recs, bytes@.skip(end as int))));
    let mut i: usize = 0;
    while i < num_pieces
        invariant
            i <= num_pieces,
            pieces@.len() == num_pieces,
            recs == records_of(pieces@),
            b == bytes@.skip(pos as int),
            le_u32(b) == num_pieces,
            b.len() >= 4,
            parsed == decode_pieces(b.skip(4), num_pieces as nat, dim as int, num_pieces as int),
            parsed == Some((recs, bytes@.skip(end as int))),
            forall|j: int| 0 <= j < i ==> #[trigger] has_piece(recs, j),
        decreases num_pieces - i,
    {
        let mut found = false;
        let mut k: usize = 0;
        while k < pieces.len()
            invariant
                k <= pieces@.len(),
                recs == records_of(pieces@),
                i < num_pieces,
                found ==> has_piece(recs, i as int),
                !found ==> forall|j: int| 0 <= j < k ==> (#[trigger] recs[j]).0 != i,
            decreases pieces@.len() - k,
        {
            assert(recs[k as int].0 == pieces@[k as int].piece_index);
            if pieces[k].piece_index == i {
                found = true;
            }
            k = k + 1;
        }
        if !found {
            assert(!has_piece(recs, i as int));
            assert(!has_every_piece(recs, num_pieces as int));
            return None;
        }
        i = i + 1;
    }
    Some((pieces, end))
}

/// Reads `count` solutions at `pos`.
fn parse_solutions(bytes: &[u8], pos: usize, count: usize, dim: usize, num_pieces: usize) -> (r: Option<Vec<Vec<PlacedPiece>>>)
    requires
        num_pieces <= MAX_PIECES,
        pos <= bytes@.len(),
    ensures
        match (r, decode_solutions(bytes@.skip(pos as int), count as nat, dim as int, num_pieces as int)) {
            (Some(solutions), Some((records, rest))) => solution_records(solutions@) == records,
            (None, None) => true,
            _ => false,
        },
{
    let ghost b = bytes@.skip(pos as int);
    let mut solutions: Vec<Vec<PlacedPiece>> = Vec::new();
    let mut p = pos;
    let mut i: usize = 0;
    assert(solution_records(solutions@) =~= Seq::<Seq<Record>>::empty());
    while i < count
        invariant
            num_pieces <= MAX_PIECES,
            i <= count,
            p <= bytes@.len(),
            b == bytes@.skip(pos as int),
            decode_solutions(b, i as nat, dim as int, num_pieces as int) == Some((solution_records(solutions@), bytes@.skip(p as int))),
        decreases count - i,
    {
        let ghost recs = solution_records(solutions@);
        match read_solution(bytes, p, dim, num_pieces) {
            Some((solution, end)) => {
                let ghost sv = solution@;
                solutions.push(solution);
                assert(solution_records(solutions@) =~= recs.push(records_of(sv)));
                p = end;
            },
            None => {
                proof {
                    lemma_decode_solutions_stays_none(b, (i + 1) as nat, count as nat, dim as int, num_pieces as int);
                }
                return None;
            },
        }
        i = i + 1;
    }
    Some(solutions)
}

/// Checks the first bytes of a file: `Some(8)` for a current-format file
/// whose header matches the puzzle, `Some(0)` for a legacy file, `None`
/// otherwise.
fn solution_count_offset(bytes: &[u8], dim: usize, grid_size: usize, num_pieces: usize) -> (r: Option<usize>)
    ensures
        match r {
            Some(o) => count_offset(bytes@, dim, grid_size, num_pieces) == Some(o as int),
            None => count_offset(bytes@, dim, grid_size, num_pieces) is None,
        },
{
    if bytes.len() < 4 {
        return None;
    }
    let b = bytes;
    if b[0] == 66 && b[1] == 76 && b[2] == 75 && b[3] == 82 {
        assert(bytes@.take(4) =~= file_magic());
        // current format: magic, then the puzzle's metadata
        if bytes.len() < 8 {
            return None;
        }
        let version = b[4];
        if version != FILE_VERSION || b[5] as usize != dim || b[6] as usize != grid_size || b[7] as usize != num_pieces {
            return None;
        }
        Some(8)
    } else {
        // legacy format without a header: the first bytes are the count
        proof {
            if bytes@.take(4) == file_magic() {
                assert(bytes@.take(4)[0] == 66 && bytes@.take(4)[1] == 76);
                assert(bytes@.take(4)[2] == 75 && bytes@.take(4)[3] == 82);
            }
        }
        Some(0)
    }
}

/// Loads every solution of a saved file; `None` when the file does not hold
/// a complete, valid solution list for this puzzle.
pub fn load_all(bytes: &[u8], dim: usize, grid_size: usize, num_pieces: usize) -> (r: Option<Vec<Vec<PlacedPiece>>>)
    requires
        num_pieces <= MAX_PIECES,
    ensures
        match r {
            Some(solutions) => decode_file(bytes@, dim, grid_size, num_pieces) == Some(solution_records(solutions@)),
            None => decode_file(bytes@, dim, grid_size, num_pieces) is None,
        },
{
    let offset = match solution_count_offset(bytes, dim, grid_size, num_pieces) {
        Some(o) => o,
        None => {
            return None;
        },
    };
    let solution_count = match read_u32(bytes, offset) {
        Some(v) => v as usize,
        None => {
            return None;
        },
    };
    proof {
        assert(bytes@.skip(offset as int + 4) == bytes@.skip(offset as int + 4));
    }
    parse_solutions(bytes, offset + 4, solution_count, dim, num_pieces)
}

/// The number of saved solutions: read from the header of a current-format
/// file, counted by loading a legacy one.
pub fn count(bytes: &[u8], dim: usize, grid_size: usize, num_pieces: usize) -> (r: Option<usize>)
    requires
        num_pieces <= MAX_PIECES,
    ensures
        match r {
            Some(c) => count_file(bytes@, dim, grid_size, num_pieces) == Some(c as int),
            None => count_file(bytes@, dim, grid_size, num_pieces) is None,
        },
{
    let offset = match solution_count_offset(bytes, dim, grid_size, num_pieces) {
        Some(o) => o,
        None => {
            return None;
        },
    };
    let solution_count = match read_u32(bytes, offset) {
        Some(v) => v as usize,
        None => {
            return None;
        },
    };
    if offset == 8 {
        return Some(solution_count);
    }
    match parse_solutions(bytes, offset + 4, solution_count, dim, num_pieces) {
        Some(solutions) => {
            assert(solution_records(solutions@).len() == solutions@.len());
            Some(solutions.len())
        },
        None => None,
    }
}

/// Every piece of every solution has at most `MAX_CUBES` cubes.
pub open spec fn cube_counts_ok(solutions: Seq<Vec<PlacedPiece>>) -> bool {
    forall|i: int, k: int|
        0 <= i < solutions.len() && 0 <= k < solutions[i]@.len() ==> (#[trigger] solutions[i]@[k]).cube_count
            <= MAX_CUBES
}

/// Appends the encoding of one piece.
fn write_piece(out: &mut Vec<u8>, placed: &PlacedPiece)
    requires
        placed.cube_count <= MAX_CUBES,
    ensures
        final(out)@ == old(out)@ + encode_piece(*placed),
{
    let ghost start = out@;
    push_u32(out, placed.piece_index as u32);
    push_u32(out, placed.cube_count as u32);
    let ghost mid = out@;
    let cubes = placed.cubes();
    let mut j: usize = 0;
    assert(encode_cubes(cubes@.subrange(0, 0)) =~= Seq::<u8>::empty());
    assert(mid =~= mid + encode_cubes(cubes@.subrange(0, 0)));
    while j < cubes.len()
        invariant
            j <= cubes@.len(),
            out@ == mid + encode_cubes(cubes@.subrange(0, j as int)),
        decreases cubes@.len() - j,
    {
        let (x, y, z) = cubes[j];
        out.push(x as u8);
        out.push(y as u8);
        out.push(z as u8);
        proof {
            let next = cubes@.subrange(0, j as int + 1);
            assert(next.drop_last() =~= cubes@.subrange(0, j as int));
            assert(next.last() == (x, y, z));
            assert(out@ =~= mid + encode_cubes(next));
        }
        j = j + 1;
    }
    assert(cubes@.subrange(0, cubes@.len() as int) =~= cubes@);
    assert(out@ =~= start + encode_piece(*placed));
}

/// The binary file of a solution list.
fn save_binary(dim: usize, grid_size: usize, num_pieces: usize, solutions: &[Vec<PlacedPiece>]) -> (bytes: Vec<u8>)
    requires
        cube_counts_ok(solutions@),
    ensures
        bytes@ == binary_file(dim, grid_size, num_pieces, solutions@),
{
    let mut out: Vec<u8> = Vec::new();
    out.push(66u8);
    out.push(76u8);
    out.push(75u8);
    out.push(82u8);
    out.push(FILE_VERSION);
    out.push(dim as u8);
    out.push(grid_size as u8);
    out.push(num_pieces as u8);
    assert(out@ =~= file_header(dim, grid_size, num_pieces));
    push_u32(&mut out, solutions.len() as u32);
    let ghost head = out@;
    let mut i: usize = 0;
    assert(head =~= head + encode_solutions(solutions@.subrange(0, 0)));
    while i < solutions.len()
        invariant
            i <= solutions@.len(),
            cube_counts_ok(solutions@),
            out@ == head + encode_solutions(solutions@.subrange(0, i as int)),
        decreases solutions@.len() - i,
    {
        let solution = &solutions[i];
        push_u32(&mut out, solution.len() as u32);
        let ghost mid = out@;
        let mut k: usize = 0;
        assert(mid =~= mid + encode_pieces(solution@.subrange(0, 0)));
        while k < solution.len()
            invariant
                k <= solution@.len(),
                i < solutions@.len(),
                solution == solutions@[i as int],
                cube_counts_ok(solutions@),
                out@ == mid + encode_pieces(solution@.subrange(0, k as int)),
            decreases solution@.len() - k,
        {
            assert(solutions@[i as int]@[k as int].cube_count <= MAX_CUBES);
            write_piece(&mut out, &solution[k]);
            proof {
                let next = solution@.subrange(0, k as int + 1);
                assert(next.drop_last() =~= solution@.subrange(0, k as int));
                assert(out@ =~= mid + encode_pieces(next));
            }
            k = k + 1;
        }
        proof {
            assert(solution@.subrange(0, solution@.len() as int) =~= solution@);
            let next = solutions@.subrange(0, i as int + 1);
            assert(next.drop_last() =~= solutions@.subrange(0, i as int));
            assert(out@ =~= head + encode_solutions(next));
        }
        i = i + 1;
    }
    assert(solutions@.subrange(0, solutions@.len() as int) =~= solutions@);
    assert(out@ =~= binary_file(dim, grid_size, num_pieces, solutions@));
    out
}

/// The decimal digits of `n`.
pub open spec fn decimal(n: nat) -> Seq<char>
    decreases n,
{
    if n < 10 {
        seq![((48 + n) as u8) as char]
    } else {
        decimal(n / 10) + seq![((48 + n % 10) as u8) as char]
    }
}

/// The text entry of solution number `i` (counting from 0).
pub open spec fn solution_entry(d: int, i: nat, s: Seq<PlacedPiece>) -> Seq<char> {
    "Solution "@ + decimal(i + 1) + ":\n"@ + grid_text(d, grid_of(d, s)) + "\n"@
}

/// The text entries of a list of solutions.
pub open spec fn entries_text(d: int, solutions: Seq<Vec<PlacedPiece>>) -> Seq<char>
    decreases solutions.len(),
{
    if solutions.len() == 0 {
        Seq::empty()
    } else {
        entries_text(d, solutions.drop_last()) + solution_entry(
            d,
            (solutions.len() - 1) as nat,
            solutions.last()@,
        )
    }
}

/// The text listing of a list of solutions.
pub open spec fn solutions_text(d: int, solutions: Seq<Vec<PlacedPiece>>) -> Seq<char> {
    "Found "@ + decimal(solutions.len()) + " solutions:\n\n"@ + entries_text(d, solutions)
}

/// Appends the decimal digits of `n`.
fn push_decimal(out: &mut String, n: usize)
    ensures
        final(out)@ == old(out)@ + decimal(n as nat),
    decreases n,
{
    if n >= 10 {
        push_decimal(out, n / 10);
    }
    push_char(out, (48u8 + (n % 10) as u8) as char);
    assert(final(out)@ =~= old(out)@ + decimal(n as nat));
}

/// Every solution fits the grid and numbers its pieces below `MAX_PIECES`.
pub open spec fn printable(d: int, solutions: Seq<Vec<PlacedPiece>>) -> bool {
    forall|i: int|
        0 <= i < solutions.len() ==> solution_fits_grid(d, #[trigger] solutions[i]@) && forall|k: int|
            0 <= k < solutions[i]@.len() ==> (#[trigger] solutions[i]@[k]).piece_index < MAX_PIECES
}

/// The human-readable listing of a list of solutions.
fn save_text(dim: usize, solutions: &[Vec<PlacedPiece>]) -> (text: String)
    requires
        0 < dim <= MAX_DIM,
        printable(dim as int, solutions@),
    ensures
        text@ == solutions_text(dim as int, solutions@),
{
    let ghost d = dim as int;
    let mut out = String::new();
    push_str(&mut out, "Found ");
    push_decimal(&mut out, solutions.len());
    push_str(&mut out, " solutions:\n\n");
    let ghost head = out@;
    assert(head =~= head + entries_text(d, solutions@.subrange(0, 0)));
    let mut i: usize = 0;
    while i < solutions.len()
        invariant
            0 < dim <= MAX_DIM,
            d == dim as int,
            i <= solutions@.len(),
            printable(d, solutions@),
            out@ == head + entries_text(d, solutions@.subrange(0, i as int)),
        decreases solutions@.len() - i,
    {
        push_str(&mut out, "Solution ");
        push_decimal(&mut out, i + 1);
        push_str(&mut out, ":\n");
        assert(solution_fits_grid(d, solutions@[i as int]@));
        let grid_text = format_solution(dim, solutions[i].as_slice());
        push_str(&mut out, grid_text.as_str());
        push_str(&mut out, "\n");
        proof {
            let next = solutions@.subrange(0, i as int + 1);
            assert(next.drop_last() =~= solutions@.subrange(0, i as int));
            assert(next.last() == solutions@[i as int]);
            assert(out@ =~= head + entries_text(d, next));
        }
        i = i + 1;
    }
    assert(solutions@.subrange(0, solutions@.len() as int) =~= solutions@);
    out
}

/// The contents of the two saved files of a solution list: the text
/// listing and the binary file.
pub fn save(dim: usize, grid_size: usize, num_pieces: usize, solutions: &[Vec<PlacedPiece>]) -> (files: (
    String,
    Vec<u8>,
))
    requires
        0 < dim <= MAX_DIM,
        printable(dim as int, solutions@),
        cube_counts_ok(solutions@),
    ensures
        files.0@ == solutions_text(dim as int, solutions@),
        files.1@ == binary_file(dim, grid_size, num_pieces, solutions@),
{
    let text = save_text(dim, solutions);
    let binary = save_binary(dim, grid_size, num_pieces, solutions);
    (text, binary)
}

/// A solution that can be saved and loaded back for a puzzle with
/// `num_pieces` pieces: each piece once, each with 1 to `MAX_CUBES` cubes
/// inside a grid of dimension `dim`.
pub open spec fn storable(dim: int, num_pieces: int, s: Seq<PlacedPiece>) -> bool {
    &&& s.len() == num_pieces
    &&& forall|k: int|
        0 <= k < s.len() ==> {
            &&& 1 <= (#[trigger] s[k]).cube_count <= MAX_CUBES
            &&& s[k].piece_index < num_pieces
            &&& forall|j: int|
                0 <= j < s[k].cube_count ==> {
                    let c = #[trigger] s[k].positions@[j];
                    0 <= c.0 < dim && 0 <= c.1 < dim && 0 <= c.2 < dim
                }
        }
    &&& forall|i: int, j: int| 0 <= i < j < s.len() ==> (#[trigger] s[i]).piece_index != (#[trigger] s[j]).piece_index
    &&& has_every_piece(records_of(s), num_pieces)
}

proof fn lemma_u32_round_trip(v: u32, rest: Seq<u8>)
    ensures
        (u32_le(v) + rest).len() >= 4,
        le_u32(u32_le(v) + rest) == v,
        (u32_le(v) + rest).skip(4) == rest,
{
    let b = u32_le(v) + rest;
    assert(b[0] == (v % 256) as u8 && b[1] == ((v / 256) % 256) as u8);
    assert(b[2] == ((v / 65536) % 256) as u8 && b[3] == (v / 16777216) as u8);
    assert(b.skip(4) =~= rest);
}

proof fn lemma_cubes_round_trip(cubes: Seq<Coord>, rest: Seq<u8>, dim: int)
    requires
        dim <= 256,
        forall|j: int|
            0 <= j < cubes.len() ==> {
                let c = #[trigger] cubes[j];
                0 <= c.0 < dim && 0 <= c.1 < dim && 0 <= c.2 < dim
            },
    ensures
        decode_cubes(encode_cubes(cubes) + rest, cubes.len(), dim) == Some((cubes, rest)),
    decreases cubes.len(),
{
    if cubes.len() > 0 {
        let c = cubes.last();
        let front = cubes.drop_last();
        let tail = seq![c.0 as u8, c.1 as u8, c.2 as u8] + rest;
        assert forall|j: int| 0 <= j < front.len() implies {
            let c = #[trigger] front[j];
            0 <= c.0 < dim && 0 <= c.1 < dim && 0 <= c.2 < dim
        } by {
            assert(front[j] == cubes[j]);
        }
        lemma_cubes_round_trip(front, tail, dim);
        assert(encode_cubes(cubes) + rest =~= encode_cubes(front) + tail);
        let k = cubes.len() - 1;
        assert(c == cubes[k]);
        assert(tail.skip(3) =~= rest);
        assert(front.push((tail[0] as i32, tail[1] as i32, tail[2] as i32)) =~= cubes);
    }
}

proof fn lemma_piece_round_trip(p: PlacedPiece, rest: Seq<u8>, dim: int, num_pieces: int, before: Seq<Record>)
    requires
        dim <= 256,
        num_pieces <= MAX_PIECES,
        1 <= p.cube_count <= MAX_CUBES,
        p.piece_index < num_pieces,
        !has_piece(before, p.piece_index as int),
        forall|j: int|
            0 <= j < p.cube_count ==> {
                let c = #[trigger] p.positions@[j];
                0 <= c.0 < dim && 0 <= c.1 < dim && 0 <= c.2 < dim
            },
    ensures
        decode_piece(encode_piece(p) + rest, dim, num_pieces, before) == Some((record_of(p), rest)),
{
    let cubes = p.cubes_view();
    let after_count = encode_cubes(cubes) + rest;
    let after_index = u32_le(p.cube_count as u32) + after_count;
    let b = u32_le(p.piece_index as u32) + after_index;
    assert(encode_piece(p) + rest =~= b);
    lemma_u32_round_trip(p.piece_index as u32, after_index);
    lemma_u32_round_trip(p.cube_count as u32, after_count);
    assert(b.skip(4) == after_index);
    assert(b.skip(8) =~= after_count);
    assert forall|j: int| 0 <= j < cubes.len() implies {
        let c = #[trigger] cubes[j];
        0 <= c.0 < dim && 0 <= c.1 < dim && 0 <= c.2 < dim
    } by {
        assert(cubes[j] == p.positions@[j]);
    }
    lemma_cubes_round_trip(cubes, rest, dim);
}

proof fn lemma_pieces_round_trip(s: Seq<PlacedPiece>, rest: Seq<u8>, dim: int, num_pieces: int)
    requires
        dim <= 256,
        num_pieces <= MAX_PIECES,
        forall|k: int|
            0 <= k < s.len() ==> {
                &&& 1 <= (#[trigger] s[k]).cube_count <= MAX_CUBES
                &&& s[k].piece_index < num_pieces
                &&& forall|j: int|
                    0 <= j < s[k].cube_count ==> {
                        let c = #[trigger] s[k].positions@[j];
                        0 <= c.0 < dim && 0 <= c.1 < dim && 0 <= c.2 < dim
                    }
            },
        forall|i: int, j: int| 0 <= i < j < s.len() ==> (#[trigger] s[i]).piece_index != (#[trigger] s[j]).piece_index,
    ensures
        decode_pieces(encode_pieces(s) + rest, s.len(), dim, num_pieces) == Some((records_of(s), rest)),
    decreases s.len(),
{
    if s.len() > 0 {
        let front = s.drop_last();
        let p = s.last();
        let tail = encode_piece(p) + rest;
        assert forall|k: int| 0 <= k < front.len() implies {
            &&& 1 <= (#[trigger] front[k]).cube_count <= MAX_CUBES
            &&& front[k].piece_index < num_pieces
            &&& forall|j: int|
                0 <= j < front[k].cube_count ==> {
                    let c = #[trigger] front[k].positions@[j];
                    0 <= c.0 < dim && 0 <= c.1 < dim && 0 <= c.2 < dim
                }
        } by {
            assert(front[k] == s[k]);
        }
        assert forall|i: int, j: int| 0 <= i < j < front.len() implies (#[trigger] front[i]).piece_index != (#[trigger] front[j]).piece_index by {
            assert(front[i] == s[i]);
            assert(front[j] == s[j]);
        }
        lemma_pieces_round_trip(front, tail, dim, num_pieces);
        assert(encode_pieces(s) + rest =~= encode_pieces(front) + tail);
        let before = records_of(front);
        assert(!has_piece(before, p.piece_index as int)) by {
            if has_piece(before, p.piece_index as int) {
                let w = choose|k: int| 0 <= k < before.len() && (#[trigger] before[k]).0 == p.piece_index as int;
                assert(s[w].piece_index == s[s.len() - 1].piece_index);
            }
        }
        assert(1 <= s[s.len() - 1].cube_count <= MAX_CUBES);
        lemma_piece_round_trip(p, rest, dim, num_pieces, before);
        assert(before.push(record_of(p)) =~= records_of(s));
    }
}

proof fn lemma_solutions_round_trip(solutions: Seq<Vec<PlacedPiece>>, rest: Seq<u8>, dim: int, num_pieces: int)
    requires
        dim <= 256,
        num_pieces <= MAX_PIECES,
        forall|i: int| 0 <= i < solutions.len() ==> storable(dim, num_pieces, #[trigger] solutions[i]@),
    ensures
        decode_solutions(encode_solutions(solutions) + rest, solutions.len(), dim, num_pieces) == Some((solution_records(solutions), rest)),
    decreases solutions.len(),
{
    if solutions.len() > 0 {
        let front = solutions.drop_last();
        let s = solutions.last()@;
        let tail = encode_solution(s) + rest;
        assert forall|i: int| 0 <= i < front.len() implies storable(dim, num_pieces, #[trigger] front[i]@) by {
            assert(front[i] == solutions[i]);
        }
        lemma_solutions_round_trip(front, tail, dim, num_pieces);
        assert(encode_solutions(solutions) + rest =~= encode_solutions(front) + tail);
        assert(storable(dim, num_pieces, solutions[solutions.len() - 1]@));
        let pieces_and_rest = encode_pieces(s) + rest;
        assert(tail =~= u32_le(s.len() as u32) + pieces_and_rest);
        lemma_u32_round_trip(s.len() as u32, pieces_and_rest);
        lemma_pieces_round_trip(s, rest, dim, num_pieces);
        assert(solution_records(front).push(records_of(s)) =~= solution_records(solutions));
    }
}

/// Saving a list of solutions and loading the binary file back gives the
/// same solutions: the same pieces, in the same order, with the same cubes.
/// This holds for the empty list too.
pub proof fn lemma_save_then_load(dim: usize, grid_size: usize, num_pieces: usize, solutions: Seq<Vec<PlacedPiece>>)
    requires
        dim < 256,
        grid_size < 256,
        num_pieces <= MAX_PIECES,
        solutions.len() <= u32::MAX,
        forall|i: int| 0 <= i < solutions.len() ==> storable(dim as int, num_pieces as int, #[trigger] solutions[i]@),
    ensures
        decode_file(binary_file(dim, grid_size, num_pieces, solutions), dim, grid_size, num_pieces) == Some(
            solution_records(solutions),
        ),
{
    let body = encode_solutions(solutions);
    let b = binary_file(dim, grid_size, num_pieces, solutions);
    let after_header = u32_le(solutions.len() as u32) + body;
    assert(b =~= file_header(dim, grid_size, num_pieces) + after_header);
    assert(b.take(4) =~= file_magic());
    assert(b[4] == FILE_VERSION && b[5] == dim && b[6] == grid_size && b[7] == num_pieces);
    assert(b.skip(8) =~= after_header);
    lemma_u32_round_trip(solutions.len() as u32, body);
    assert(b.skip(12) =~= body + Seq::<u8>::empty());
    lemma_solutions_round_trip(solutions, Seq::empty(), dim as int, num_pieces as int);
}

/// Every piece can be written: at most `MAX_CUBES` cubes, an index and a
/// piece count that fit in `u32`.
pub open spec fn encodable(solutions: Seq<Vec<PlacedPiece>>) -> bool {
    &&& forall|i: int| 0 <= i < solutions.len() ==> (#[trigger] solutions[i])@.len() <= u32::MAX
    &&& forall|i: int, k: int|
        0 <= i < solutions.len() && 0 <= k < solutions[i]@.len() ==> {
            &&& (#[trigger] solutions[i]@[k]).cube_count <= MAX_CUBES
            &&& solutions[i]@[k].piece_index <= u32::MAX
        }
}

proof fn lemma_cubes_lockstep(cubes: Seq<Coord>, rest: Seq<u8>, dim: int)
    ensures
        decode_cubes(encode_cubes(cubes) + rest, cubes.len(), dim) matches Some((c, r)) ==> r == rest,
    decreases cubes.len(),
{
    if cubes.len() > 0 {
        let c = cubes.last();
        let front = cubes.drop_last();
        let tail = seq![c.0 as u8, c.1 as u8, c.2 as u8] + rest;
        lemma_cubes_lockstep(front, tail, dim);
        assert(encode_cubes(cubes) + rest =~= encode_cubes(front) + tail);
        assert(tail.skip(3) =~= rest);
    }
}

/// The piece indices of saved pieces.
pub open spec fn record_indices(recs: Seq<Record>) -> Seq<int> {
    recs.map_values(|r: Record| r.0)
}

/// The piece indices of placed pieces.
pub open spec fn piece_indices(s: Seq<PlacedPiece>) -> Seq<int> {
    s.map_values(|p: PlacedPiece| p.piece_index as int)
}

/// Decoding the encoding of pieces, when it succeeds, reads exactly those
/// bytes and gives back their indices.
proof fn lemma_pieces_lockstep(s: Seq<PlacedPiece>, rest: Seq<u8>, dim: int, num_pieces: int)
    requires
        forall|k: int| 0 <= k < s.len() ==> (#[trigger] s[k]).cube_count <= MAX_CUBES && s[k].piece_index <= u32::MAX,
    ensures
        decode_pieces(encode_pieces(s) + rest, s.len(), dim, num_pieces) matches Some((recs, r)) ==> r == rest
            && record_indices(recs) == piece_indices(s),
    decreases s.len(),
{
    if s.len() > 0 {
        let front = s.drop_last();
        let p = s.last();
        let tail = encode_piece(p) + rest;
        assert forall|k: int| 0 <= k < front.len() implies (#[trigger] front[k]).cube_count <= MAX_CUBES && front[k].piece_index <= u32::MAX by {
            assert(front[k] == s[k]);
        }
        lemma_pieces_lockstep(front, tail, dim, num_pieces);
        assert(encode_pieces(s) + rest =~= encode_pieces(front) + tail);
        assert(p.cube_count <= MAX_CUBES && p.piece_index <= u32::MAX) by {
            assert(p == s[s.len() - 1]);
        }
        let cubes = p.cubes_view();
        let after_count = encode_cubes(cubes) + rest;
        let after_index = u32_le(p.cube_count as u32) + after_count;
        assert(tail =~= u32_le(p.piece_index as u32) + after_index);
        lemma_u32_round_trip(p.piece_index as u32, after_index);
        lemma_u32_round_trip(p.cube_count as u32, after_count);
        assert(tail.skip(8) =~= after_count);
        lemma_cubes_lockstep(cubes, rest, dim);
        if let Some((recs, r)) = decode_pieces(encode_pieces(s) + rest, s.len(), dim, num_pieces) {
            let (front_recs, r1) = decode_pieces(encode_pieces(front) + tail, front.len(), dim, num_pieces)->Some_0;
            let (q, r2) = decode_piece(r1, dim, num_pieces, front_recs)->Some_0;
            assert(r1 == tail);
            assert(recs == front_recs.push(q));
            assert(record_indices(recs) =~= record_indices(front_recs).push(q.0));
            assert(piece_indices(s) =~= piece_indices(front).push(p.piece_index as int));
        }
    }
}

/// Pieces that decode have indices below `num_pieces`, no two alike.
proof fn lemma_decoded_pieces_valid(b: Seq<u8>, n: nat, dim: int, num_pieces: int)
    ensures
        decode_pieces(b, n, dim, num_pieces) matches Some((recs, r)) ==> {
            &&& forall|k: int| 0 <= k < recs.len() ==> (#[trigger] recs[k]).0 < num_pieces
            &&& forall|i: int, j: int| 0 <= i < j < recs.len() ==> (#[trigger] recs[i]).0 != (#[trigger] recs[j]).0
        },
    decreases n,
{
    if n > 0 {
        lemma_decoded_pieces_valid(b, (n - 1) as nat, dim, num_pieces);
        if let Some((recs, r)) = decode_pieces(b, n, dim, num_pieces) {
            let (before, r1) = decode_pieces(b, (n - 1) as nat, dim, num_pieces)->Some_0;
            let (p, r2) = decode_piece(r1, dim, num_pieces, before)->Some_0;
            assert(recs == before.push(p));
            assert(!has_piece(before, p.0));
            assert forall|i: int, j: int| 0 <= i < j < recs.len() implies (#[trigger] recs[i]).0 != (#[trigger] recs[j]).0 by {
                if j == recs.len() - 1 {
                    assert(recs[i] == before[i]);
                    if recs[i].0 == p.0 {
                        assert(has_piece(before, p.0));
                    }
                } else {
                    assert(recs[i] == before[i]);
                    assert(recs[j] == before[j]);
                }
            }
            assert forall|k: int| 0 <= k < recs.len() implies (#[trigger] recs[k]).0 < num_pieces by {
                if k < before.len() {
                    assert(recs[k] == before[k]);
                }
            }
        }
    }
}

/// Decoding the encoding of one solution, when it succeeds, reads exactly
/// those bytes and gives back its piece indices.
proof fn lemma_solution_lockstep(s: Seq<PlacedPiece>, rest: Seq<u8>, dim: int, num_pieces: int)
    requires
        s.len() <= u32::MAX,
        forall|k: int| 0 <= k < s.len() ==> (#[trigger] s[k]).cube_count <= MAX_CUBES && s[k].piece_index <= u32::MAX,
    ensures
        decode_solution(encode_solution(s) + rest, dim, num_pieces) matches Some((recs, r)) ==> r == rest
            && record_indices(recs) == piece_indices(s),
{
    let pieces_and_rest = encode_pieces(s) + rest;
    let b = encode_solution(s) + rest;
    assert(b =~= u32_le(s.len() as u32) + pieces_and_rest);
    lemma_u32_round_trip(s.len() as u32, pieces_and_rest);
    lemma_pieces_lockstep(s, rest, dim, num_pieces);
}

/// The piece indices of each decoded solution.
pub open spec fn solution_record_indices(recs: Seq<Seq<Record>>) -> Seq<Seq<int>> {
    recs.map_values(|r: Seq<Record>| record_indices(r))
}

/// The piece indices of each solution.
pub open spec fn solution_piece_indices(solutions: Seq<Vec<PlacedPiece>>) -> Seq<Seq<int>> {
    solutions.map_values(|v: Vec<PlacedPiece>| piece_indices(v@))
}

/// Decoding the encoding of solutions, when it succeeds, reads exactly
/// those bytes and gives back their piece indices.
proof fn lemma_solutions_lockstep(solutions: Seq<Vec<PlacedPiece>>, rest: Seq<u8>, dim: int, num_pieces: int)
    requires
        encodable(solutions),
    ensures
        decode_solutions(encode_solutions(solutions) + rest, solutions.len(), dim, num_pieces) matches Some((recs, r)) ==> r == rest
            && solution_record_indices(recs) == solution_piece_indices(solutions),
    decreases solutions.len(),
{
    if solutions.len() > 0 {
        let front = solutions.drop_last();
        let s = solutions.last()@;
        let tail = encode_solution(s) + rest;
        assert(encodable(front)) by {
            assert forall|i: int| 0 <= i < front.len() implies (#[trigger] front[i])@.len() <= u32::MAX by {
                assert(front[i] == solutions[i]);
            }
            assert forall|i: int, k: int| 0 <= i < front.len() && 0 <= k < front[i]@.len() implies {
                &&& (#[trigger] front[i]@[k]).cube_count <= MAX_CUBES
                &&& front[i]@[k].piece_index <= u32::MAX
            } by {
                assert(front[i] == solutions[i]);
            }
        }
        lemma_solutions_lockstep(front, tail, dim, num_pieces);
        assert(encode_solutions(solutions) + rest =~= encode_solutions(front) + tail);
        let last = solutions.len() - 1;
        assert(solutions[last]@ == s);
        assert forall|k: int| 0 <= k < s.len() implies (#[trigger] s[k]).cube_count <= MAX_CUBES && s[k].piece_index <= u32::MAX by {
            assert(solutions[last]@[k] == s[k]);
        }
        lemma_solution_lockstep(s, rest, dim, num_pieces);
        if let Some((recs, r)) = decode_solutions(encode_solutions(solutions) + rest, solutions.len(), dim, num_pieces) {
            let (front_recs, r1) = decode_solutions(encode_solutions(front) + tail, front.len(), dim, num_pieces)->Some_0;
            let (srecs, r2) = decode_solution(r1, dim, num_pieces)->Some_0;
            assert(r1 == tail);
            assert(recs == front_recs.push(srecs));
            assert(solution_record_indices(recs) =~= solution_record_indices(front_recs).push(record_indices(srecs)));
            assert(solution_piece_indices(solutions) =~= solution_piece_indices(front).push(piece_indices(s)));
        }
    }
}

/// A solution decoded from bytes has only piece indices below `num_pieces`,
/// no two alike.
proof fn lemma_decoded_solutions_in_range(b: Seq<u8>, n: nat, dim: int, num_pieces: int)
    ensures
        decode_solutions(b, n, dim, num_pieces) matches Some((recs, r)) ==> {
            &&& forall|i: int, k: int| 0 <= i < recs.len() && 0 <= k < recs[i].len() ==> (#[trigger] recs[i][k]).0 < num_pieces
            &&& forall|i: int, k: int, l: int|
                0 <= i < recs.len() && 0 <= k < l < recs[i].len() ==> (#[trigger] recs[i][k]).0 != (#[trigger] recs[i][l]).0
        },
    decreases n,
{
    if n > 0 {
        lemma_decoded_solutions_in_range(b, (n - 1) as nat, dim, num_pieces);
        if let Some((recs, r)) = decode_solutions(b, n, dim, num_pieces) {
            let (front_recs, r1) = decode_solutions(b, (n - 1) as nat, dim, num_pieces)->Some_0;
            let (srecs, r2) = decode_solution(r1, dim, num_pieces)->Some_0;
            assert(recs == front_recs.push(srecs));
            lemma_decoded_pieces_valid(r1.skip(4), num_pieces as nat, dim, num_pieces);
            assert forall|i: int, k: int| 0 <= i < recs.len() && 0 <= k < recs[i].len() implies (#[trigger] recs[i][k]).0 < num_pieces by {
                if i < front_recs.len() {
                    assert(recs[i] == front_recs[i]);
                }
            }
            assert forall|i: int, k: int, l: int|
                0 <= i < recs.len() && 0 <= k < l < recs[i].len() implies (#[trigger] recs[i][k]).0 != (#[trigger] recs[i][l]).0 by {
                if i < front_recs.len() {
                    assert(recs[i] == front_recs[i]);
                }
            }
        }
    }
}

/// Loading a saved file in which some solution has a piece index out of
/// range, or the same index twice, yields no solutions at all.
pub proof fn lemma_bad_index_loads_nothing(
    dim: usize,
    grid_size: usize,
    num_pieces: usize,
    solutions: Seq<Vec<PlacedPiece>>,
    i: int,
    k: int,
    l: int,
)
    requires
        dim < 256,
        grid_size < 256,
        num_pieces <= MAX_PIECES,
        solutions.len() <= u32::MAX,
        encodable(solutions),
        0 <= i < solutions.len(),
        0 <= k < solutions[i]@.len(),
        0 <= l < solutions[i]@.len(),
        solutions[i]@[k].piece_index >= num_pieces || (k != l && solutions[i]@[k].piece_index
            == solutions[i]@[l].piece_index),
    ensures
        decode_file(binary_file(dim, grid_size, num_pieces, solutions), dim, grid_size, num_pieces) is None,
{
    let body = encode_solutions(solutions);
    let b = binary_file(dim, grid_size, num_pieces, solutions);
    let after_header = u32_le(solutions.len() as u32) + body;
    assert(b =~= file_header(dim, grid_size, num_pieces) + after_header);
    assert(b.take(4) =~= file_magic());
    assert(b[4] == FILE_VERSION && b[5] == dim && b[6] == grid_size && b[7] == num_pieces);
    assert(b.skip(8) =~= after_header);
    lemma_u32_round_trip(solutions.len() as u32, body);
    assert(b.skip(12) =~= body + Seq::<u8>::empty());
    lemma_solutions_lockstep(solutions, Seq::empty(), dim as int, num_pieces as int);
    lemma_decoded_solutions_in_range(body + Seq::<u8>::empty(), solutions.len(), dim as int, num_pieces as int);
    if let Some((recs, r)) = decode_solutions(body + Seq::<u8>::empty(), solutions.len(), dim as int, num_pieces as int) {
        assert(solution_record_indices(recs).len() == recs.len());
        assert(solution_piece_indices(solutions).len() == solutions.len());
        assert(recs.len() == solutions.len());
        assert(solution_record_indices(recs)[i] == record_indices(recs[i]));
        assert(solution_piece_indices(solutions)[i] == piece_indices(solutions[i]@));
        assert(record_indices(recs[i]) == piece_indices(solutions[i]@));
        assert(record_indices(recs[i]).len() == recs[i].len());
        assert(recs[i].len() == solutions[i]@.len());
        assert(record_indices(recs[i])[k] == piece_indices(solutions[i]@)[k]);
        assert(record_indices(recs[i])[l] == piece_indices(solutions[i]@)[l]);
        assert(recs[i][k].0 == solutions[i]@[k].piece_index);
        assert(recs[i][l].0 == solutions[i]@[l].piece_index);
        if k < l {
            assert(recs[i][k].0 != recs[i][l].0);
        } else if l < k {
            assert(recs[i][l].0 != recs[i][k].0);
        }
    }
}

/// Whatever bytes a file holds, the solutions loaded from it name only
/// pieces below `num_pieces`, none twice within a solution: a file with a
/// record that has an out-of-range or repeated piece index loads as nothing,
/// never as a partly built list.
pub proof fn lemma_loaded_indices_valid(b: Seq<u8>, dim: usize, grid_size: usize, num_pieces: usize)
    ensures
        decode_file(b, dim, grid_size, num_pieces) matches Some(recs) ==> {
            &&& forall|i: int, k: int| 0 <= i < recs.len() && 0 <= k < recs[i].len() ==> (#[trigger] recs[i][k]).0 < num_pieces
            &&& forall|i: int, k: int, l: int|
                0 <= i < recs.len() && 0 <= k < l < recs[i].len() ==> (#[trigger] recs[i][k]).0 != (#[trigger] recs[i][l]).0
        },
{
    if let Some(o) = count_offset(b, dim, grid_size, num_pieces) {
        if b.len() >= o + 4 {
            lemma_decoded_solutions_in_range(b.skip(o + 4), le_u32(b.skip(o)) as nat, dim as int, num_pieces as int);
        }
    }
}

} // verus!
