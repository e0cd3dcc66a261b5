//! The human-readable account of each refusal.
use vstd::prelude::*;

use crate::notation::{decimal, push_decimal};
use crate::types::{GridError, MAX_SQUARE_SCAN_CELLS, MAX_SQUARE_ZOOM};

verus! {

/// The message that describes `error`.
pub open spec fn error_message(error: GridError) -> Seq<char> {
    match error {
        GridError::MaxCellsZero => "maxCells must be greater than zero"@,
        GridError::InvalidH3Resolution { reason, .. } => "invalid H3 resolution: "@ + reason@,
        GridError::InvalidH3Cell { value, reason } => "invalid H3 cell `"@ + value@ + "`: "@ + reason@,
        GridError::H3CellResolutionMismatch { value, resolution } => "H3 cell `"@ + value@
            + "` does not match resolution "@ + decimal(resolution as nat),
        GridError::H3CoverageExceedsMaxCells { max_cells } => "H3 coverage exceeds maxCells ("@
            + decimal(max_cells as nat) + ")"@,
        GridError::SquareZoomTooLarge { .. } => "square zoom must not exceed "@ + decimal(
            MAX_SQUARE_ZOOM as nat,
        ),
        GridError::SquareCellOutsideZoom { zoom, x, y } => "square cell "@ + decimal(zoom as nat)
            + "/"@ + decimal(x as nat) + "/"@ + decimal(y as nat) + " is outside zoom "@ + decimal(
            zoom as nat,
        ),
        GridError::SquareCoverageExceedsMaxCells { max_cells } => "square coverage exceeds maxCells ("@
            + decimal(max_cells as nat) + ")"@,
        GridError::SquareScanTooLarge { candidate_count } => "square-grid scan would inspect "@
            + decimal(candidate_count as nat) + " cells; limit is "@ + decimal(
            MAX_SQUARE_SCAN_CELLS as nat,
        ),
    }
}

impl GridError {
    /// The message that describes the refusal.
    pub fn message(&self) -> (text: String)
        ensures
            text@ == error_message(*self),
    {
        let mut text = String::new();
        match self {
            GridError::MaxCellsZero => {
                text.append("maxCells must be greater than zero");
            },
            GridError::InvalidH3Resolution { reason, .. } => {
                text.append("invalid H3 resolution: ");
                text.append(reason.as_str());
            },
            GridError::InvalidH3Cell { value, reason } => {
                text.append("invalid H3 cell `");
                text.append(value.as_str());
                text.append("`: ");
                text.append(reason.as_str());
            },
            GridError::H3CellResolutionMismatch { value, resolution } => {
                text.append("H3 cell `");
                text.append(value.as_str());
                text.append("` does not match resolution ");
                push_decimal(&mut text, *resolution as u64);
            },
            GridError::H3CoverageExceedsMaxCells { max_cells } => {
                text.append("H3 coverage exceeds maxCells (");
                push_decimal(&mut text, *max_cells as u64);
                text.append(")");
            },
            GridError::SquareZoomTooLarge { .. } => {
                text.append("square zoom must not exceed ");
                push_decimal(&mut text, MAX_SQUARE_ZOOM as u64);
            },
            GridError::SquareCellOutsideZoom { zoom, x, y } => {
                text.append("square cell ");
                push_decimal(&mut text, *zoom as u64);
                text.append("/");
                push_decimal(&mut text, *x as u64);
                text.append("/");
                push_decimal(&mut text, *y as u64);
                text.append(" is outside zoom ");
                push_decimal(&mut text, *zoom as u64);
            },
            GridError::SquareCoverageExceedsMaxCells { max_cells } => {
                text.append("square coverage exceeds maxCells (");
                push_decimal(&mut text, *max_cells as u64);
                text.append(")");
            },
            GridError::SquareScanTooLarge { candidate_count } => {
                text.append("square-grid scan would inspect ");
                push_decimal(&mut text, *candidate_count);
                text.append(" cells; limit is ");
                push_decimal(&mut text, MAX_SQUARE_SCAN_CELLS);
            },
        }
        proof {
            assert(text@ =~= error_message(*self));
        }
        text
    }
}

} // verus!
