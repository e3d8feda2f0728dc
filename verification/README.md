# clipper

Integer polygon geometry for a Vatti-style polygon clipper, verified with Verus.

- `src/` is the verified library:
  - `point.rs`: the `IntPoint` trait and the 2-D and 3-D integer points.
  - `int128.rs`: exact 128-bit products from 64-bit halves, and the exact sign
    of a cross product.
  - `path.rs`: polygons, their exact doubled signed area and orientation, and
    the point-in-polygon classification, with laws on reversal and rotation.
  - `edge.rs`: the edge record, exact slope comparisons, and the x position of
    an edge at a height.
  - `node.rs`: the result tree as an index-linked node pool.
  - `outpt.rs`: output rings in an arena of points, containment tests on
    them, and ring reversal.
  - `clipper.rs`: the builder, the clipper's settings, and the rules that
    decide whether an edge contributes to a solution.
- `app/` holds what computes in floating point: double points, edge slopes,
  intersection points and `f64` areas.
- `tests/` exercises the library on concrete values.
