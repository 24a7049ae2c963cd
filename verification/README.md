# exactum

Exact computational geometry on integer coordinates, verified with Verus.

Every predicate and construction computes in integers or exact rationals, and
each public function carries a contract that Verus proves.

## Layout

- `src/point.rs`, `src/vector.rs`: 2D and 3D points and vectors.
- `src/widen.rs`: the `Widen` trait, which gives each coordinate type a wider
  type in which products of coordinates are exact.
- `src/rational.rs`: rationals over `i128` with exact comparison.
- `src/predicates.rs`: `orient2d`, `orient3d`, `incircle`, with the
  determinants they compute and their symmetry laws.
- `src/ops.rs`: distances, segment/line/ray intersections, point-in-polygon,
  polygon area.
- `src/algo/`: Graham scan, Bowyer-Watson Delaunay triangulation, Voronoi
  diagram, Bentley-Ottmann sweep, polygon boolean operations, k-d trees,
  quadtree, octree and R-tree.
- `tests/`: concrete scenarios and one test per law.
- `app/`: conversions of exact results to floating point.

## Coordinate limits

Where an algorithm multiplies coordinates several times, its `requires`
bounds the input coordinates so that every intermediate value is exact:
`2^23` for `delaunay`, `2^10` for `voronoi` and the boolean operations,
`2^15` for the sweep.

Each bound was chosen so that the proofs can show every product and sum of
the computation fits `i128` (or the rational type's parts) with a margin:
the degree of the largest intermediate polynomial in the coordinates, times
the bit width of one coordinate, plus a few bits for the number of terms,
stays under 127. They are conservative rather than the tightest bounds at
which the arithmetic is still exact.
