use tropical_geometry::harmonic::tropical_chord_distance;
use tropical_geometry::newton_polytope::TropicalNewtonPolytope;
use tropical_geometry::polytope::{convex_hull_indices, distinct_pairwise_sums};

fn cross(o: &[u32], a: &[u32], b: &[u32]) -> i64 {
    let (ox, oy) = (o[0] as i64, o[1] as i64);
    (a[0] as i64 - ox) * (b[1] as i64 - oy) - (a[1] as i64 - oy) * (b[0] as i64 - ox)
}

#[test]
fn monotone_chain_square_with_inner_and_edge_points() {
    let pts = vec![vec![0, 0], vec![2, 0], vec![2, 2], vec![0, 2], vec![1, 1], vec![1, 0]];
    assert_eq!(convex_hull_indices(&pts), vec![0, 1, 2, 3]);
}

#[test]
fn monotone_chain_triangle_and_small_inputs() {
    let tri = vec![vec![0, 0], vec![2, 0], vec![0, 2]];
    assert_eq!(convex_hull_indices(&tri), vec![0, 1, 2]);
    assert_eq!(convex_hull_indices(&[vec![4, 4]]), vec![0]);
    assert_eq!(convex_hull_indices(&[vec![1, 1], vec![1, 1]]), vec![0, 1]);
}

#[test]
fn hull_indices_on_a_line_and_in_higher_dimensions() {
    assert_eq!(convex_hull_indices(&[vec![3], vec![1], vec![5], vec![1], vec![5]]), vec![1, 2]);
    assert_eq!(convex_hull_indices(&[vec![2], vec![2]]), vec![0]);
    let cube = vec![vec![0, 0, 0], vec![1, 1, 1], vec![0, 1, 0]];
    assert_eq!(convex_hull_indices(&cube), vec![0, 1, 2]);
    assert_eq!(convex_hull_indices(&[vec![], vec![]]), vec![0, 1]);
}

#[test]
fn pairwise_sums_keep_first_occurrences_in_order() {
    let a = vec![vec![0, 0], vec![1, 0]];
    let b = vec![vec![0, 0], vec![0, 1]];
    assert_eq!(
        distinct_pairwise_sums(&a, &b),
        vec![vec![0, 0], vec![0, 1], vec![1, 0], vec![1, 1]]
    );
    let a = vec![vec![0], vec![1]];
    let b = vec![vec![1], vec![0]];
    assert_eq!(distinct_pairwise_sums(&a, &b), vec![vec![1], vec![0], vec![2]]);
    assert_eq!(distinct_pairwise_sums(&a, &[]), Vec::<Vec<u32>>::new());
}

#[test]
fn gift_wrap_leaves_every_point_left_of_every_edge() {
    let pts = vec![
        vec![3, 1],
        vec![0, 0],
        vec![4, 4],
        vec![1, 3],
        vec![2, 2],
        vec![0, 4],
        vec![2, 0],
        vec![4, 0],
    ];
    let np = TropicalNewtonPolytope::from_points(&pts);
    assert_eq!(np.vertex_indices, vec![1, 7, 2, 5]);
    for &(a, b) in &np.edges {
        for q in &pts {
            assert!(cross(&pts[a], &pts[b], q) >= 0);
        }
    }
}

#[test]
fn chord_distance_obeys_the_triangle_inequality_on_examples() {
    let a = vec![60, 64, 67];
    let b = vec![60, 63, 67];
    let c = vec![58, 65, 69];
    let ab = tropical_chord_distance(a.clone(), b.clone());
    let bc = tropical_chord_distance(b.clone(), c.clone());
    let ac = tropical_chord_distance(a.clone(), c.clone());
    assert!(ac <= ab + bc);
    assert_eq!((ab, bc, ac), (1, 2, 2));
}

#[test]
fn gift_wrap_with_repeated_points_visits_each_corner_once() {
    let pts = vec![
        vec![0, 0],
        vec![2, 0],
        vec![0, 0],
        vec![2, 2],
        vec![1, 1],
        vec![2, 0],
        vec![0, 2],
    ];
    let np = TropicalNewtonPolytope::from_points(&pts);
    assert_eq!(np.vertex_indices, vec![0, 1, 3, 6]);
    assert_eq!(np.edges, vec![(0, 1), (1, 3), (3, 6), (6, 0)]);
    let same = vec![vec![5, 5], vec![5, 5], vec![5, 5]];
    let np = TropicalNewtonPolytope::from_points(&same);
    assert_eq!(np.vertex_indices, vec![0]);
    assert_eq!(np.num_edges(), 0);
}
