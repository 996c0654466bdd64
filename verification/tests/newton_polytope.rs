use tropical_geometry::newton_polytope::{minkowski_sum, sum_of_coords, TropicalNewtonPolytope};

fn exponents(monomials: Vec<(f64, Vec<u32>)>) -> Vec<Vec<u32>> {
    monomials.into_iter().map(|(_, e)| e).collect()
}

#[test]
fn test_from_polynomial_triangle() {
    // f = max(0, x, y) → Newton polytope is triangle {(0,0), (1,0), (0,1)}
    let pts = exponents(vec![(0.0, vec![0, 0]), (0.0, vec![1, 0]), (0.0, vec![0, 1])]);
    let np = TropicalNewtonPolytope::from_points(&pts);
    assert_eq!(np.num_vertices(), 3);
    assert_eq!(np.ambient_dim, 2);
    assert_eq!(np.polytope_dim, 2);
}

#[test]
fn test_from_polynomial_segment() {
    // f = max(0, x, 2x) → only 2 vertices on hull: (0) and (2)
    let pts = exponents(vec![(0.0, vec![0]), (0.0, vec![1]), (0.0, vec![2])]);
    let np = TropicalNewtonPolytope::from_points(&pts);
    assert_eq!(np.num_vertices(), 2);
    assert_eq!(np.edges.len(), 1);
}

#[test]
fn test_single_point() {
    let pts = exponents(vec![(3.0, vec![1, 2])]);
    let np = TropicalNewtonPolytope::from_points(&pts);
    assert_eq!(np.num_vertices(), 1);
    assert_eq!(np.num_edges(), 0);
    assert_eq!(np.polytope_dim, 0);
}

#[test]
fn test_empty() {
    let np = TropicalNewtonPolytope::from_points(&[]);
    assert_eq!(np.num_vertices(), 0);
    assert_eq!(np.num_edges(), 0);
}

#[test]
fn newton_polytope_test_degree() {
    let pts = exponents(vec![(0.0, vec![0, 0]), (0.0, vec![3, 0]), (0.0, vec![0, 2])]);
    let np = TropicalNewtonPolytope::from_points(&pts);
    assert_eq!(np.degree(), 3);
}

#[test]
fn test_normalized_volume_triangle() {
    // Unit triangle: {(0,0), (1,0), (0,1)}
    let pts = exponents(vec![(0.0, vec![0, 0]), (0.0, vec![1, 0]), (0.0, vec![0, 1])]);
    let np = TropicalNewtonPolytope::from_points(&pts);
    // Area = 0.5, normalized volume = |det| = 1
    assert!((np.normalized_volume() as f64 - 1.0).abs() < 1e-10);
}

#[test]
fn test_normalized_volume_square() {
    // {(0,0), (1,0), (0,1), (1,1)} → area = 1, normalized volume = 2
    let pts = vec![vec![0u32, 0], vec![1, 0], vec![0, 1], vec![1, 1]];
    let np = TropicalNewtonPolytope::from_points(&pts);
    assert!((np.normalized_volume() as f64 - 2.0).abs() < 1e-10);
}

#[test]
fn test_minkowski_sum_segments() {
    // [0,1] + [0,1] = [0,2]
    let p1 = TropicalNewtonPolytope::from_points(&[vec![0u32], vec![1]]);
    let p2 = TropicalNewtonPolytope::from_points(&[vec![0u32], vec![1]]);
    let sum = minkowski_sum(&p1, &p2);
    assert_eq!(sum.num_vertices(), 2);
    let verts: Vec<u32> = sum.vertices().iter().map(|v| v[0]).collect();
    assert!(verts.contains(&0));
    assert!(verts.contains(&2));
}

#[test]
fn test_minkowski_sum_triangle_point() {
    // Triangle + point = shifted triangle
    let tri = TropicalNewtonPolytope::from_points(&[vec![0u32, 0], vec![1, 0], vec![0, 1]]);
    let pt = TropicalNewtonPolytope::from_points(&[vec![1u32, 1]]);
    let sum = minkowski_sum(&tri, &pt);
    assert_eq!(sum.num_vertices(), 3);
    let verts = sum.vertices();
    assert!(verts.iter().any(|v| v[0] == 1 && v[1] == 1));
    assert!(verts.iter().any(|v| v[0] == 2 && v[1] == 1));
    assert!(verts.iter().any(|v| v[0] == 1 && v[1] == 2));
}

#[test]
fn test_neighbors() {
    let pts = vec![vec![0u32, 0], vec![1, 0], vec![0, 1]];
    let np = TropicalNewtonPolytope::from_points(&pts);
    // Each vertex should have 2 neighbors in a triangle
    for &vi in &np.vertex_indices {
        assert_eq!(np.neighbors(vi).len(), 2);
    }
}

#[test]
fn test_is_vertex() {
    let pts = vec![vec![0u32, 0], vec![1, 0], vec![0, 1], vec![0, 0]]; // duplicate (0,0) acts as interior
    let np = TropicalNewtonPolytope::from_points(&pts);
    assert!(np.is_vertex(0)); // (0,0)
}

#[test]
fn newton_polytope_test_collinear_points() {
    // Three collinear points: only endpoints are vertices
    let pts = vec![vec![0u32, 0], vec![1, 1], vec![2, 2]];
    let np = TropicalNewtonPolytope::from_points(&pts);
    assert_eq!(np.num_vertices(), 2);
    assert_eq!(np.polytope_dim, 1);
}

// ---------------------------------------------------------------------------

#[test]
fn gift_wrap_order_and_edges() {
    let pts = vec![vec![2u32, 2], vec![0, 0], vec![2, 0], vec![1, 1], vec![0, 2], vec![1, 0]];
    let np = TropicalNewtonPolytope::from_points(&pts);
    // Start at the leftmost-lowest point and wrap counter-clockwise,
    // skipping the interior point and the point on the bottom edge.
    assert_eq!(np.vertex_indices, vec![1, 2, 0, 4]);
    assert_eq!(np.edges, vec![(1, 2), (2, 0), (0, 4), (4, 1)]);
    assert_eq!(np.polytope_dim, 2);
    assert_eq!(np.normalized_volume(), 8);
    assert_eq!(np.neighbors(1), vec![2, 4]);
    assert!(!np.is_vertex(3));
    assert!(!np.is_vertex(5));
}

#[test]
fn one_dimensional_extremes() {
    let np = TropicalNewtonPolytope::from_points(&[vec![4u32], vec![1], vec![9], vec![1], vec![9]]);
    assert_eq!(np.vertex_indices, vec![1, 2]);
    assert_eq!(np.edges, vec![(1, 2)]);
    assert_eq!(np.polytope_dim, 1);
    let same = TropicalNewtonPolytope::from_points(&[vec![3u32], vec![3]]);
    assert_eq!(same.vertex_indices, vec![0]);
    assert!(same.edges.is_empty());
    assert_eq!(same.polytope_dim, 0);
}

#[test]
fn zero_dimensional_points() {
    let np = TropicalNewtonPolytope::from_points(&[vec![], vec![]]);
    assert_eq!(np.ambient_dim, 0);
    assert_eq!(np.num_vertices(), 0);
    assert_eq!(np.polytope_dim, 0);
}

#[test]
fn three_dimensional_hull_takes_first_copies_of_extreme_points() {
    let pts = vec![vec![0u32, 0, 0], vec![1, 0, 0], vec![0, 0, 0], vec![0, 1, 0], vec![0, 1, 0]];
    let np = TropicalNewtonPolytope::from_points(&pts);
    assert_eq!(np.ambient_dim, 3);
    assert_eq!(np.vertex_indices, vec![0, 1, 3]);
    assert_eq!(np.edges, vec![(0, 1), (0, 3), (1, 3)]);
    assert_eq!(np.polytope_dim, 2);
    let single = TropicalNewtonPolytope::from_points(&[vec![5u32, 6, 7]]);
    assert_eq!(single.vertex_indices, vec![0]);
    assert_eq!(single.polytope_dim, 0);
    let same = TropicalNewtonPolytope::from_points(&[vec![5u32, 6, 7], vec![5, 6, 7]]);
    assert_eq!(same.vertex_indices, vec![0]);
    assert_eq!(same.num_edges(), 0);
}

#[test]
fn unit_tetrahedron_has_four_vertices_and_six_edges() {
    let pts = vec![vec![0u32, 0, 0], vec![1, 0, 0], vec![0, 1, 0], vec![0, 0, 1]];
    let np = TropicalNewtonPolytope::from_points(&pts);
    assert_eq!(np.ambient_dim, 3);
    assert_eq!(np.num_vertices(), 4);
    assert_eq!(np.num_edges(), 6);
    assert_eq!(np.polytope_dim, 3);
    // An interior point and a point in the middle of an edge are not vertices.
    let pts = vec![vec![0u32, 0, 0], vec![4, 0, 0], vec![0, 4, 0], vec![0, 0, 4], vec![1, 1, 1], vec![2, 0, 0]];
    let np = TropicalNewtonPolytope::from_points(&pts);
    assert_eq!(np.vertex_indices, vec![0, 1, 2, 3]);
    assert_eq!(np.polytope_dim, 3);
}

#[test]
fn planar_segment_has_one_edge() {
    let pts = vec![vec![0u32, 0], vec![1, 1], vec![2, 2]];
    let np = TropicalNewtonPolytope::from_points(&pts);
    assert_eq!(np.vertex_indices, vec![0, 2]);
    assert_eq!(np.edges, vec![(0, 2)]);
    let same = TropicalNewtonPolytope::from_points(&[vec![0u32, 0], vec![0, 0]]);
    assert_eq!(same.vertex_indices, vec![0]);
    assert_eq!(same.num_edges(), 0);
    assert_eq!(same.polytope_dim, 0);
}

#[test]
fn minkowski_sum_points_are_sorted_and_distinct() {
    let a = TropicalNewtonPolytope::from_points(&[vec![0u32, 0], vec![1, 0]]);
    let b = TropicalNewtonPolytope::from_points(&[vec![0u32, 0], vec![0, 1]]);
    let sum = minkowski_sum(&a, &b);
    assert_eq!(sum.points, vec![vec![0, 0], vec![0, 1], vec![1, 0], vec![1, 1]]);
    assert_eq!(sum.num_vertices(), 4);
    assert_eq!(sum.polytope_dim, 2);
    assert_eq!(sum.normalized_volume(), 2);
}

#[test]
fn degree_and_coordinate_sums() {
    assert_eq!(sum_of_coords(&vec![2, 3, 1]), 6);
    assert_eq!(sum_of_coords(&vec![]), 0);
    let np = TropicalNewtonPolytope::from_points(&[vec![1u32, 1], vec![0, 0], vec![5, 0]]);
    assert_eq!(np.degree(), 5);
    let empty = TropicalNewtonPolytope::from_points(&[]);
    assert_eq!(empty.degree(), 0);
}

#[test]
fn minkowski_sum_does_not_depend_on_the_order() {
    let a = TropicalNewtonPolytope::from_points(&[vec![0u32, 0], vec![2, 0], vec![0, 1]]);
    let b = TropicalNewtonPolytope::from_points(&[vec![1u32, 1], vec![1, 3]]);
    let ab = minkowski_sum(&a, &b);
    let ba = minkowski_sum(&b, &a);
    assert_eq!(ab.points, ba.points);
    assert_eq!(ab.vertex_indices, ba.vertex_indices);
    assert_eq!(ab.degree(), a.degree() + b.degree());
}
