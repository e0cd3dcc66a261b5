//! Discrete spatial coverage over two cell grids: H3 cells and
//! hierarchical Web-Mercator squares.
//!
//! The library holds the integer side of the conversions: the cell sets, their
//! validation, canonical ordering, cell limits and the reconstruction of square
//! coverage as maximal rectangles.
pub mod blocks;
pub mod h3;
pub mod ident;
pub mod merge;
pub mod message;
pub mod notation;
pub mod order;
pub mod runs;
pub mod square;
pub mod texts;
pub mod types;

pub use blocks::SquareRectangle;
pub use h3::{
    accept_h3_cell, canonical_h3_cell_set, h3_cell_set_indexes, h3_cell_text,
    h3_index_resolution, insert_h3_cell, validate_h3_resolution, H3Reconstruction,
};
pub use merge::merge_square_runs;
pub use runs::contiguous_runs;
pub use square::{
    insert_square_cell, scan_square_cells, square_candidate_count, square_cell_set,
    square_cells_to_rectangles, square_dimension, validate_square_cell, validate_square_zoom,
    SquareReconstruction,
};
pub use texts::sort_texts;
pub use types::{
    default_max_cells, validate_max_cells, GridError, H3CellSet, H3Containment, H3CoverageOptions,
    SquareCell, SquareCellSet, SquareCoverageOptions,
};
