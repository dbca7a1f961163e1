use blocker::geometry::all_orientations;
use blocker::pieces::soma_pieces;

fn check_orientations(piece: &[(i32, i32, i32)], expected: usize) {
    let orientations = all_orientations(piece);
    assert_eq!(orientations.len(), expected);
    for o in &orientations {
        assert_eq!(o.len(), piece.len());
        assert_eq!(o.iter().map(|c| c.0).min(), Some(0));
        assert_eq!(o.iter().map(|c| c.1).min(), Some(0));
        assert_eq!(o.iter().map(|c| c.2).min(), Some(0));
    }
    // strictly increasing, so no duplicates
    for i in 0..orientations.len() {
        for j in i + 1..orientations.len() {
            assert!(orientations[i] < orientations[j]);
        }
    }
}

#[test]
fn orientations_of_soma_pieces() {
    let expected = [24, 12, 12, 12, 12, 8, 12];
    for (piece, &n) in soma_pieces().iter().zip(expected.iter()) {
        check_orientations(piece, n);
    }
}

#[test]
fn v_tricube_has_twelve_orientations() {
    check_orientations(&[(0, 0, 0), (1, 0, 0), (0, 1, 0)], 12);
}

#[test]
fn corner_piece_has_eight_orientations() {
    check_orientations(&[(0, 0, 0), (1, 0, 0), (0, 1, 0), (0, 0, 1)], 8);
}

#[test]
fn orientations_are_distinct_cube_sets() {
    for piece in soma_pieces().iter() {
        let orientations = all_orientations(piece);
        for o in &orientations {
            let mut sorted = o.clone();
            sorted.sort();
            assert_eq!(&sorted, o);
        }
    }
}

#[test]
fn orientations_of_symmetric_pieces() {
    // every rotation fixes a single cube
    check_orientations(&[(0, 0, 0)], 1);
    // a straight piece points along one of three axes
    check_orientations(&[(0, 0, 0), (1, 0, 0)], 3);
    check_orientations(&[(0, 0, 0), (1, 0, 0), (2, 0, 0)], 3);
}

#[test]
fn orientations_are_normalized_from_any_offset() {
    let orientations = all_orientations(&[(5, -3, 2), (6, -3, 2)]);
    assert_eq!(
        orientations,
        vec![
            vec![(0, 0, 0), (0, 0, 1)],
            vec![(0, 0, 0), (0, 1, 0)],
            vec![(0, 0, 0), (1, 0, 0)],
        ]
    );
}
