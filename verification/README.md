# tropical_geometry

Tropical geometry over the max-plus semiring, with the integer
combinatorics proved correct in Verus.

## Layout

- `src/` — the verified library.
  - `harmonic` — chords as integer pitch vectors: max-plus addition,
    multiplication and dominance with the semiring laws; the tropical
    distance between chords (the smallest, over all matchings of voices, of
    the largest single displacement), proved to be zero on a chord and
    itself, symmetric, unchanged when voices are reordered, and to obey the
    triangle inequality; optimal voice
    leadings; analysis of chord progressions.
  - `permutation` — the lexicographic order on index sequences, the
    successor step used to enumerate all permutations, inverses and
    compositions of permutations.
  - `newton_polytope` — Newton polytopes of exponent vectors: hull vertices
    and edges (gift wrapping in the plane, with every point on or left of
    every edge; in higher dimensions the points that a tried direction
    exposes), dimension, degree, normalized area, neighbours, Minkowski
    sums.
  - `polytope` — the monotone-chain hull in the plane (every edge of the
    closed polygon has every point on or left of it), extremes on a line,
    pairwise sums without repetition, lattice points on a segment.
  - `lattice` — the lattice points of the hull (in the order the bounding
    box is scanned), the boundary lattice count around the hull polygon, the
    interior and boundary counts of Pick's formula, and Baker's genus formula
    for the triangle of degree d.
  - `degree` — on a line or in the plane, the degree of a Newton polytope
    bounds the total degree of every one of its points.
  - `planar` — facts about orientation of planar integer vectors used by the
    hull proofs.
  - `polynomial`, `curve` — exponent padding, total degrees, edge weights.
- `tests/` — tests of the library on concrete values.
- `app/` — the floating-point layer: monomials and polynomials with `f64`
  coefficients, evaluation, corner loci, curves, rational maps, stable
  intersections, tropical bases, and the `f64` Newton polytope with facets
  and areas, built on the verified hulls, lattice points and Pick counts.
