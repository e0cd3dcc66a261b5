//! The value types of the grid library: coverage options, cell sets and the
//! error that every fallible operation reports.
use vstd::prelude::*;

verus! {

/// Largest H3 resolution; H3 resolutions span `0..=15`.
pub const MAX_H3_RESOLUTION: u8 = 15;

/// Largest zoom of the Web-Mercator square grid.
pub const MAX_SQUARE_ZOOM: u8 = 24;

/// Cell limit used when a coverage request names none.
pub const DEFAULT_MAX_CELLS: usize = 250_000;

/// Upper bound on the number of candidate squares one scan may inspect.
pub const MAX_SQUARE_SCAN_CELLS: u64 = 2_000_000;

/// H3 polygon containment mode.
///
/// Points and lines use H3's native point/line indexing and ignore this option.
#[derive(Debug, Clone, Copy, PartialEq, Eq, Structural)]
pub enum H3Containment {
    /// Include cells whose centroid is contained by the polygon.
    ContainsCentroid,
    /// Include cells whose complete boundary is contained by the polygon.
    ContainsBoundary,
    /// Include cells whose boundary intersects the polygon boundary.
    IntersectsBoundary,
    /// Include every cell needed to cover the polygon, including polygons fully
    /// contained by a single cell.
    Covers,
}

impl Default for H3Containment {
    fn default() -> (containment: Self)
        ensures
            containment == H3Containment::Covers,
    {
        H3Containment::Covers
    }
}

/// H3 coverage configuration.
#[derive(Debug, Clone, Copy, PartialEq, Eq, Structural)]
pub struct H3CoverageOptions {
    /// H3 resolution in the inclusive range 0..=15.
    pub resolution: u8,
    /// Polygon containment semantics.
    pub containment: H3Containment,
    /// Maximum number of cells returned.
    pub max_cells: usize,
}

/// Canonical H3 cell coverage.
#[derive(Debug, Clone, PartialEq, Eq)]
pub struct H3CellSet {
    /// H3 resolution requested for the coverage.
    pub resolution: u8,
    /// Canonical lower-case H3 cell identifiers.
    pub cells: Vec<String>,
}

/// Hierarchical Web-Mercator square cell.
///
/// Coordinates follow XYZ tile semantics at the parent set's zoom.
#[derive(Debug, Clone, Copy, PartialEq, Eq, Structural, PartialOrd, Ord, Hash)]
pub struct SquareCell {
    /// X tile coordinate.
    pub x: u32,
    /// Y tile coordinate.
    pub y: u32,
}

/// Web-Mercator square-cell coverage.
#[derive(Debug, Clone, PartialEq, Eq)]
pub struct SquareCellSet {
    /// XYZ zoom level.
    pub zoom: u8,
    /// Source-order-independent canonical cell order.
    pub cells: Vec<SquareCell>,
}

/// Square-grid coverage configuration.
#[derive(Debug, Clone, Copy, PartialEq, Eq, Structural)]
pub struct SquareCoverageOptions {
    /// Web-Mercator XYZ zoom level in the inclusive range 0..=24.
    pub zoom: u8,
    /// Maximum number of selected cells.
    pub max_cells: usize,
}

/// Why a grid operation refused its input.
#[derive(Debug, Clone, PartialEq, Eq)]
pub enum GridError {
    /// A cell limit of zero was requested.
    MaxCellsZero,
    /// The H3 resolution lies outside `0..=15`; `reason` is H3's account.
    InvalidH3Resolution { resolution: u8, reason: String },
    /// A text is not the identifier of an H3 cell; `reason` is the parser's account.
    InvalidH3Cell { value: String, reason: String },
    /// An H3 cell does not have the resolution of its set.
    H3CellResolutionMismatch { value: String, resolution: u8 },
    /// An H3 coverage holds more cells than its limit.
    H3CoverageExceedsMaxCells { max_cells: usize },
    /// The square zoom exceeds `MAX_SQUARE_ZOOM`.
    SquareZoomTooLarge { zoom: u8 },
    /// A square cell lies outside the grid of its zoom.
    SquareCellOutsideZoom { zoom: u8, x: u32, y: u32 },
    /// A square coverage holds more cells than its limit.
    SquareCoverageExceedsMaxCells { max_cells: usize },
    /// The number of squares a scan would inspect exceeds `MAX_SQUARE_SCAN_CELLS`.
    SquareScanTooLarge { candidate_count: u64 },
}

/// The cell limit of a coverage request that names none.
pub fn default_max_cells() -> (max_cells: usize)
    ensures
        max_cells == DEFAULT_MAX_CELLS,
{
    DEFAULT_MAX_CELLS
}

/// Refuses a cell limit of zero.
pub fn validate_max_cells(max_cells: usize) -> (result: Result<(), GridError>)
    ensures
        result is Ok <==> max_cells > 0,
        result is Err ==> result == Err::<(), GridError>(GridError::MaxCellsZero),
{
    if max_cells == 0 {
        return Err(GridError::MaxCellsZero);
    }
    Ok(())
}

} // verus!
