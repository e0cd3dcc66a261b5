# moenarch-geo-grid

Discrete spatial coverage over two cell grids: H3 cells and hierarchical
Web-Mercator squares.

- `src/` is the verified library. It holds the integer side of the
  conversions: resolution, zoom and cell validation, cell limits, the canonical
  order of cell sets, the parsing of H3 identifiers (through `h3o`), stable
  `z/x/y` identifiers, error messages, and the reconstruction of a square cell
  set as maximal rectangles. The laws of the library (the rectangles cover
  exactly the selected cells, each once; they are maximal; the result does not
  depend on cell order; canonical forms are unique; identifiers are injective)
  are public proof functions beside the code they speak of.
- `app/` holds the geometry: GeoJSON-shaped geometry, its validation, the
  floating-point tile projection, the H3 point/line/polygon algorithms and the
  dissolve of H3 cells, which call into the library for every integer step.
- `tests/` runs the library on concrete values.
