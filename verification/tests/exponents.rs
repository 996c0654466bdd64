use tropical_geometry::polynomial::{max_total_degree, normalize_exponents};

#[test]
fn exponents_are_padded_to_the_number_of_variables() {
    let rows = vec![vec![1, 0, 2], vec![], vec![4]];
    assert_eq!(
        normalize_exponents(rows),
        vec![vec![1, 0, 2], vec![0, 0, 0], vec![4, 0, 0]]
    );
    assert!(normalize_exponents(vec![]).is_empty());
    assert_eq!(normalize_exponents(vec![vec![], vec![]]), vec![Vec::<u32>::new(), vec![]]);
}

#[test]
fn polynomial_degree_is_largest_monomial_degree() {
    assert_eq!(max_total_degree(&vec![vec![2, 1], vec![1, 0], vec![0, 0]]), 3);
    assert_eq!(max_total_degree(&vec![]), 0);
    assert_eq!(max_total_degree(&vec![vec![2, 0], vec![0, 2], vec![0, 0]]), 2);
}
