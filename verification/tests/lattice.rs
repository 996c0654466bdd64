use tropical_geometry::curve::gcd;
use tropical_geometry::lattice::{boundary_lattice_count, hull_lattice_points, pick_counts};
use tropical_geometry::polytope::{convex_hull_indices, lattice_points_on_segment};

#[test]
fn test_lattice_points_on_segment() {
    assert_eq!(lattice_points_on_segment(0, 0, 3, 0), 3);
    assert_eq!(lattice_points_on_segment(0, 0, 0, 3), 3);
    assert_eq!(lattice_points_on_segment(0, 0, 3, 3), 3);
    assert_eq!(lattice_points_on_segment(0, 0, 2, 4), 2);
}

#[test]
fn lattice_points_on_reversed_and_degenerate_segments() {
    assert_eq!(lattice_points_on_segment(3, 3, 0, 0), 3);
    assert_eq!(lattice_points_on_segment(-4, 7, 8, -9), 4);
    assert_eq!(lattice_points_on_segment(5, 5, 5, 5), 0);
    assert_eq!(lattice_points_on_segment(1, 2, 8, 2), 7);
}

#[test]
fn gcd_values() {
    assert_eq!(gcd(12, 18), 6);
    assert_eq!(gcd(18, 12), 6);
    assert_eq!(gcd(7, 0), 7);
    assert_eq!(gcd(0, 7), 7);
    assert_eq!(gcd(0, 0), 0);
    assert_eq!(gcd(17, 5), 1);
}

#[test]
fn test_lattice_points_triangle() {
    let pts = vec![vec![0, 0], vec![3, 0], vec![0, 3]];
    let lp = hull_lattice_points(&pts);
    assert!(lp.len() >= 10, "got {} lattice points", lp.len());
    assert_eq!(
        lp,
        vec![
            vec![0, 0], vec![0, 1], vec![0, 2], vec![0, 3],
            vec![1, 0], vec![1, 1], vec![1, 2],
            vec![2, 0], vec![2, 1],
            vec![3, 0],
        ]
    );
}

#[test]
fn test_pick_formula_triangle() {
    let pts = vec![vec![0, 0], vec![3, 0], vec![0, 3]];
    let (interior, boundary) = pick_counts(&pts).unwrap();
    assert_eq!(boundary, 9);
    assert_eq!(interior, 1);
}

#[test]
fn genus_counts_of_unit_and_larger_triangles() {
    // Baker's formula: the genus is the number of interior lattice points.
    assert_eq!(pick_counts(&[vec![1, 0], vec![0, 1], vec![0, 0]]).unwrap().0, 0);
    assert_eq!(pick_counts(&[vec![3, 0], vec![0, 3], vec![0, 0]]).unwrap().0, 1);
    assert_eq!(pick_counts(&[vec![4, 0], vec![0, 4], vec![0, 0]]).unwrap().0, 3);
}

#[test]
fn lattice_points_on_a_line_and_off_the_plane() {
    assert_eq!(hull_lattice_points(&[vec![4], vec![2], vec![3]]), vec![vec![2], vec![3], vec![4]]);
    let square = hull_lattice_points(&[vec![0, 0], vec![1, 0], vec![0, 1], vec![1, 1], vec![1, 1]]);
    assert_eq!(square, vec![vec![0, 0], vec![0, 1], vec![1, 0], vec![1, 1]]);
    // A slanted segment: only the points on it.
    let segment = hull_lattice_points(&[vec![0, 0], vec![2, 2]]);
    assert_eq!(segment, vec![vec![0, 0], vec![1, 1], vec![2, 2]]);
    // In three dimensions the distinct points, by last coordinate first.
    let cube = hull_lattice_points(&[vec![1, 0, 0], vec![0, 0, 1], vec![0, 1, 0], vec![1, 0, 0]]);
    assert_eq!(cube, vec![vec![1, 0, 0], vec![0, 1, 0], vec![0, 0, 1]]);
}

#[test]
fn boundary_counts_and_degenerate_hulls() {
    let pts = vec![vec![0, 0], vec![4, 0], vec![0, 2]];
    let hull = convex_hull_indices(&pts);
    assert_eq!(boundary_lattice_count(&pts, &hull), Some(4 + 2 + 2));
    // A segment: all its lattice points are on the boundary, ends included.
    let seg = vec![vec![0, 0], vec![2, 2]];
    let hull = convex_hull_indices(&seg);
    assert_eq!(boundary_lattice_count(&seg, &hull), Some(3));
    assert_eq!(pick_counts(&seg), Some((0, 3)));
    // A single repeated point is one boundary point.
    let dot = vec![vec![5, 5], vec![5, 5]];
    assert_eq!(pick_counts(&dot), Some((0, 1)));
    // On a line the boundary is the two end points.
    assert_eq!(pick_counts(&[vec![0], vec![3]]), Some((2, 2)));
}
