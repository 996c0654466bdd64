use tropical_geometry::harmonic::{
    optimal_voice_leading, tropical_add, tropical_chord_distance, tropical_dominance,
    tropical_mul, tropical_scalar_mul, TropicalChordSpace, TropicalHarmonicAnalysis,
    VoiceLeading,
};

#[test]
fn test_tropical_chord_distance_identity() {
    let c = vec![60, 64, 67]; // C major
    assert_eq!(tropical_chord_distance(c.clone(), c) as f64, 0.0);
}

#[test]
fn test_tropical_chord_distance_c_major_to_c_minor() {
    let c_maj = vec![60, 64, 67];
    let c_min = vec![60, 63, 67];
    let d = tropical_chord_distance(c_maj, c_min);
    // |64-63| = 1 is the max displacement
    assert_eq!(d as f64, 1.0);
}

#[test]
fn test_optimal_voice_leading_same_chord() {
    let c = vec![60, 64, 67];
    let vl = optimal_voice_leading(c.clone(), c);
    assert_eq!(vl.tropical_distance as f64, 0.0);
    assert!(vl.displacements.iter().all(|&d| d == 0));
}

#[test]
fn test_optimal_voice_leading_c_to_f() {
    // C major [60,64,67] → F major [65,69,72] — all voices move up
    let vl = optimal_voice_leading(vec![60, 64, 67], vec![65, 69, 72]);
    assert_eq!(vl.maximal_displacement(), 5);
    assert_eq!(vl.tropical_distance as f64, 5.0);
}

#[test]
fn test_voice_leading_displacements() {
    let vl = optimal_voice_leading(vec![0, 4, 7], vec![0, 3, 7]);
    assert_eq!(vl.tropical_distance as f64, 1.0);
    assert!(vl.displacements.contains(&-1));
}

#[test]
fn test_tropical_chord_space_distance() {
    let c1 = TropicalChordSpace::new(vec![60, 64, 67]);
    let c2 = TropicalChordSpace::new(vec![60, 63, 67]);
    assert_eq!(c1.tropical_distance_to(&c2) as f64, 1.0);
}

#[test]
fn test_tropical_chord_space_project() {
    let cs = TropicalChordSpace::new(vec![60, 64, 67]);
    let proj = cs.project(&[0, 2]);
    assert_eq!(proj.pitches, vec![60, 67]);
}

#[test]
fn test_harmonic_analysis_total_length() {
    let analysis = TropicalHarmonicAnalysis::from_progression(vec![
        vec![60, 64, 67], // C
        vec![60, 63, 67], // Cm
        vec![60, 64, 67], // C
    ]);
    // C→Cm = 1, Cm→C = 1
    assert_eq!(analysis.total_tropical_length() as f64, 2.0);
    assert_eq!(analysis.max_voice_leading_distance() as f64, 1.0);
}

#[test]
fn test_polytope_face_decomposition() {
    let analysis = TropicalHarmonicAnalysis::from_progression(vec![
        vec![60, 64, 67], // C
        vec![60, 63, 67], // Cm (dist 1)
        vec![55, 59, 62], // G (large jump)
        vec![55, 59, 62], // G (dist 0)
    ]);
    // threshold 2.0: C→Cm (1) ok, Cm→G (>2) split, G→G (0) ok
    let faces = analysis.decompose_polytope_faces(2);
    assert!(faces.len() >= 2);
}

#[test]
fn test_tropical_add() {
    let a = vec![1, 4, 2];
    let b = vec![3, 2, 5];
    assert_eq!(tropical_add(&a, &b), vec![3, 4, 5]);
}

#[test]
fn test_tropical_mul() {
    let a = vec![1, 4, 2];
    let b = vec![3, 2, 5];
    assert_eq!(tropical_mul(&a, &b), vec![4, 6, 7]);
}

#[test]
fn test_tropical_scalar_mul() {
    assert_eq!(tropical_scalar_mul(3, &[1, 4, 2]), vec![4, 7, 5]);
}

#[test]
fn test_tropical_dominance() {
    let chords = vec![vec![1, 2], vec![3, 4], vec![0, 1]];
    let dom = tropical_dominance(&chords);
    assert!(dom[1][0]); // [3,4] dominates [1,2]
    assert!(dom[1][2]); // [3,4] dominates [0,1]
    assert!(!dom[0][1]); // [1,2] does not dominate [3,4]
}

#[test]
fn test_empty_chords() {
    let vl = optimal_voice_leading(vec![], vec![]);
    assert_eq!(vl.tropical_distance as f64, 0.0);
    assert!(vl.displacements.is_empty());
}

// ---------------------------------------------------------------------------

#[test]
fn chord_distance_uses_best_matching_not_given_order() {
    // In the given order the voices move by 7 and 7; swapping them moves by 0.
    assert_eq!(tropical_chord_distance(vec![60, 67], vec![67, 60]), 0);
    // Bottleneck matching: |0-10| vs |10-1|,|0-0| → 9 is the smaller maximum.
    assert_eq!(tropical_chord_distance(vec![0, 10], vec![0, 1]), 9);
    assert_eq!(tropical_chord_distance(vec![5, 1, 9], vec![2, 8, 6]), 1);
}

#[test]
fn chord_distance_is_symmetric_on_examples() {
    let a = vec![3, 17, -4, 9];
    let b = vec![10, -2, 5, 12];
    assert_eq!(tropical_chord_distance(a.clone(), b.clone()), tropical_chord_distance(b, a));
}

#[test]
fn chord_distance_to_self_is_zero() {
    let c = vec![-5, 40, 2, 2, 19];
    assert_eq!(tropical_chord_distance(c.clone(), c), 0);
}

#[test]
fn voice_leading_picks_first_optimal_permutation() {
    // Both matchings of [0, 0] onto [1, 1] have width 1; the identity comes first.
    let vl = optimal_voice_leading(vec![0, 0], vec![1, 1]);
    assert_eq!(vl.permutation, vec![0, 1]);
    assert_eq!(vl.displacements, vec![1, 1]);
    assert_eq!(vl.total_displacement(), 2);
    // Crossing voices are untangled.
    let vl = optimal_voice_leading(vec![60, 67], vec![67, 60]);
    assert_eq!(vl.permutation, vec![1, 0]);
    assert_eq!(vl.tropical_distance, 0);
    assert_eq!(vl.displacements, vec![0, 0]);
}

#[test]
fn voice_leading_displacement_norms() {
    let vl = VoiceLeading {
        from_chord: vec![0, 0, 0],
        to_chord: vec![0, 0, 0],
        displacements: vec![-4, 2, 3],
        tropical_distance: 4,
        permutation: vec![0, 1, 2],
    };
    assert_eq!(vl.maximal_displacement(), 4);
    assert_eq!(vl.total_displacement(), 9);
}

#[test]
fn chord_space_sorts_and_projects() {
    let cs = TropicalChordSpace::new(vec![67, 60, 64, 60]);
    assert_eq!(cs.pitches, vec![60, 60, 64, 67]);
    assert_eq!(cs.dim, 4);
    let proj = cs.project(&[3, 0, 3]);
    assert_eq!(proj.pitches, vec![60, 67, 67]);
    assert_eq!(proj.dim, 3);
    let empty = cs.project(&[]);
    assert!(empty.pitches.is_empty());
    assert_eq!(empty.dim, 0);
}

#[test]
fn harmonic_analysis_tables() {
    let analysis = TropicalHarmonicAnalysis::from_progression(vec![
        vec![60, 64, 67],
        vec![60, 63, 67],
        vec![55, 59, 62],
    ]);
    assert_eq!(analysis.pairwise_distances[0][0], 0);
    assert_eq!(analysis.pairwise_distances[0][1], 1);
    assert_eq!(analysis.pairwise_distances[1][0], 1);
    assert_eq!(analysis.pairwise_distances[1][2], 5);
    assert_eq!(analysis.pairwise_distances[0][2], 5);
    assert_eq!(analysis.total_tropical_length(), 6);
    assert_eq!(analysis.max_voice_leading_distance(), 5);
}

#[test]
fn face_decomposition_exact_segments() {
    let analysis = TropicalHarmonicAnalysis::from_progression(vec![
        vec![60, 64, 67],
        vec![60, 63, 67],
        vec![55, 59, 62],
        vec![55, 59, 62],
    ]);
    assert_eq!(analysis.decompose_polytope_faces(2), vec![(0, 2), (2, 4)]);
    // Below every distance: each chord is its own face except equal neighbours.
    assert_eq!(analysis.decompose_polytope_faces(-1), vec![(0, 1), (1, 2), (2, 3), (3, 4)]);
    assert_eq!(analysis.decompose_polytope_faces(0), vec![(0, 1), (1, 2), (2, 4)]);
    assert_eq!(analysis.decompose_polytope_faces(100), vec![(0, 4)]);
    let empty = TropicalHarmonicAnalysis::from_progression(vec![]);
    assert!(empty.decompose_polytope_faces(0).is_empty());
    assert_eq!(empty.total_tropical_length(), 0);
    assert_eq!(empty.max_voice_leading_distance(), 0);
}

#[test]
fn semiring_laws_on_examples() {
    let a = vec![1, -4, 2];
    let b = vec![3, 2, -5];
    let c = vec![0, 7, 1];
    // idempotent, commutative
    assert_eq!(tropical_add(&a, &a), a);
    assert_eq!(tropical_add(&a, &b), tropical_add(&b, &a));
    // associative
    assert_eq!(
        tropical_add(&tropical_add(&a, &b), &c),
        tropical_add(&a, &tropical_add(&b, &c))
    );
    assert_eq!(
        tropical_mul(&tropical_mul(&a, &b), &c),
        tropical_mul(&a, &tropical_mul(&b, &c))
    );
    // distributive
    assert_eq!(
        tropical_mul(&a, &tropical_add(&b, &c)),
        tropical_add(&tropical_mul(&a, &b), &tropical_mul(&a, &c))
    );
    assert_eq!(
        tropical_scalar_mul(5, &tropical_add(&a, &b)),
        tropical_add(&tropical_scalar_mul(5, &a), &tropical_scalar_mul(5, &b))
    );
    // identity and absorption
    assert_eq!(tropical_mul(&a, &[0, 0, 0]), a);
    let non_positive = vec![0, -3, -1];
    assert_eq!(tropical_add(&a, &tropical_mul(&a, &non_positive)), a);
}

#[test]
fn dominance_is_the_semiring_order() {
    let chords = vec![vec![3, 4], vec![1, 2], vec![2, 5], vec![3, 4]];
    let dom = tropical_dominance(&chords);
    for i in 0..chords.len() {
        assert!(!dom[i][i]);
        for j in 0..chords.len() {
            if i != j {
                let absorbs = tropical_add(&chords[i], &chords[j]) == chords[i];
                assert_eq!(dom[i][j], absorbs);
            }
        }
    }
    // Equal chords dominate each other.
    assert!(dom[0][3] && dom[3][0]);
    // Shorter chords are compared on the voices both have.
    let dom = tropical_dominance(&[vec![5], vec![4, 100]]);
    assert!(dom[0][1]);
    assert!(!dom[1][0]);
}

#[test]
fn voice_leading_width_is_the_chord_distance() {
    let pairs = vec![
        (vec![60, 64, 67], vec![65, 69, 72]),
        (vec![60, 64, 67], vec![67, 60, 63]),
        (vec![48, 55, 64, 70], vec![50, 53, 62, 71]),
    ];
    for (a, b) in pairs {
        let vl = optimal_voice_leading(a.clone(), b.clone());
        assert_eq!(vl.tropical_distance, tropical_chord_distance(a, b));
    }
}

#[test]
fn chord_distance_ignores_the_order_of_voices() {
    let c1 = vec![60, 64, 67, 71];
    let c2 = vec![59, 62, 69, 72];
    let d = tropical_chord_distance(c1.clone(), c2.clone());
    assert_eq!(d, 2);
    assert_eq!(tropical_chord_distance(vec![71, 60, 67, 64], c2.clone()), d);
    assert_eq!(tropical_chord_distance(c1.clone(), vec![72, 69, 59, 62]), d);
    assert_eq!(tropical_chord_distance(vec![67, 71, 64, 60], vec![62, 72, 59, 69]), d);
}
