# rqhull

Voronoi diagrams from qhull's output, verified with Verus.

- `src/options.rs`: the qhull command line (`"qhull v Qbb Qz"`) built from a
  mode and options; the options are joined with `itertools`.
- `src/error.rs`: `QhullError`, the meaning of `qh_new_qhull`'s exit code,
  and the shape check on the point array.
- `src/iterators.rs`: walks over qhull's null-terminated sets and
  sentinel-terminated lists, and the buffer that places Voronoi vertices by
  visit id.
- `src/voronoi.rs`: `QHull<T>`, the vertex, facet and ridge lists qhull
  computed, and `get_voronoi_diagram`, which turns them into
  `(vertices, ridge_points, ridge_vertices, regions, point_region)`, with the
  laws it keeps.
- `src/point_region.rs`: the `ndarray::Array1<i32>` of region indices.
- `src/text.rs`: `trim_line`, the whitespace-separated fields of a line.
- `app/lib.rs`: conversions for callers holding `ndarray` point arrays, C
  strings and `Display`.
