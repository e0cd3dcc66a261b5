use std::collections::{BTreeMap, BTreeSet};

use moenarch_geo_grid::{
    contiguous_runs, default_max_cells, insert_square_cell, merge_square_runs, scan_square_cells,
    square_candidate_count, square_cell_set, square_cells_to_rectangles, square_dimension,
    validate_max_cells, validate_square_cell, validate_square_zoom, GridError, SquareCell,
    SquareCellSet, SquareReconstruction, SquareRectangle,
};

fn rectangles_of(zoom: u8, cells: &[(u32, u32)]) -> Vec<SquareRectangle> {
    let set = SquareCellSet {
        zoom,
        cells: cells.iter().map(|&(x, y)| SquareCell { x, y }).collect(),
    };
    match square_cells_to_rectangles(&set).expect("reconstruction") {
        SquareReconstruction::Rectangles(rectangles) => rectangles,
        SquareReconstruction::Empty => Vec::new(),
    }
}

fn rect(start_x: u32, end_x: u32, start_y: u32, end_y: u32) -> SquareRectangle {
    SquareRectangle {
        start_x,
        end_x,
        start_y,
        end_y,
    }
}

fn covers_each_cell_once(cells: &[(u32, u32)], rectangles: &[SquareRectangle]) {
    let unique: BTreeSet<(u32, u32)> = cells.iter().copied().collect();
    let mut covered = BTreeSet::new();
    for r in rectangles {
        for y in r.start_y..=r.end_y {
            for x in r.start_x..=r.end_x {
                assert!(covered.insert((x, y)), "cell {x}/{y} covered twice");
            }
        }
    }
    assert_eq!(covered, unique);
}

#[test]
fn square_reconstruction_merges_full_two_by_two_block() {
    let set = SquareCellSet {
        zoom: 4,
        cells: vec![
            SquareCell { x: 3, y: 5 },
            SquareCell { x: 4, y: 5 },
            SquareCell { x: 3, y: 6 },
            SquareCell { x: 4, y: 6 },
        ],
    };
    let reconstruction = square_cells_to_rectangles(&set).expect("square reconstruction");
    let SquareReconstruction::Rectangles(rectangles) = reconstruction else {
        panic!("expected rectangles");
    };
    assert_eq!(rectangles.len(), 1);
    assert_eq!(rectangles[0], rect(3, 4, 5, 6));
}

#[test]
fn empty_square_cell_set_reconstructs_to_nothing() {
    assert_eq!(
        square_cells_to_rectangles(&SquareCellSet {
            zoom: 8,
            cells: Vec::new(),
        }),
        Ok(SquareReconstruction::Empty)
    );
}

#[test]
fn reconstruction_rejects_zoom_before_cells() {
    assert_eq!(
        square_cells_to_rectangles(&SquareCellSet {
            zoom: 25,
            cells: Vec::new(),
        }),
        Err(GridError::SquareZoomTooLarge { zoom: 25 })
    );
}

#[test]
fn reconstruction_reports_first_cell_off_the_grid() {
    let set = SquareCellSet {
        zoom: 2,
        cells: vec![
            SquareCell { x: 1, y: 1 },
            SquareCell { x: 4, y: 0 },
            SquareCell { x: 0, y: 9 },
        ],
    };
    assert_eq!(
        square_cells_to_rectangles(&set),
        Err(GridError::SquareCellOutsideZoom { zoom: 2, x: 4, y: 0 })
    );
}

#[test]
fn reconstruction_counts_repeated_cells_once() {
    let rectangles = rectangles_of(3, &[(2, 2), (2, 2), (3, 2), (2, 2)]);
    assert_eq!(rectangles, vec![rect(2, 3, 2, 2)]);
}

#[test]
fn reconstruction_orders_by_last_row_then_first_column() {
    // Two columns of different heights and a separate run below them.
    let cells = [(0, 0), (0, 1), (0, 2), (5, 0), (6, 0), (5, 1), (6, 1), (2, 4)];
    let rectangles = rectangles_of(4, &cells);
    assert_eq!(
        rectangles,
        vec![rect(5, 6, 0, 1), rect(0, 0, 0, 2), rect(2, 2, 4, 4)]
    );
    covers_each_cell_once(&cells, &rectangles);
}

#[test]
fn reconstruction_splits_rows_with_different_runs() {
    // An L shape: the wide bottom row cannot extend the narrow column above it.
    let cells = [(1, 0), (1, 1), (1, 2), (2, 2), (3, 2)];
    let rectangles = rectangles_of(3, &cells);
    assert_eq!(rectangles, vec![rect(1, 1, 0, 1), rect(1, 3, 2, 2)]);
    covers_each_cell_once(&cells, &rectangles);
}

#[test]
fn reconstruction_tiles_an_irregular_set() {
    let mut cells = Vec::new();
    for y in 0..12u32 {
        for x in 0..12u32 {
            if (x * 7 + y * 3) % 5 != 0 && (x + y) % 4 != 1 {
                cells.push((x, y));
            }
        }
    }
    let rectangles = rectangles_of(4, &cells);
    covers_each_cell_once(&cells, &rectangles);
    for pair in rectangles.windows(2) {
        let (a, b) = (pair[0], pair[1]);
        assert!(a.end_y < b.end_y || (a.end_y == b.end_y && a.start_x < b.start_x));
    }
}

#[test]
fn rows_with_a_gap_are_not_merged() {
    let mut rows = BTreeMap::new();
    rows.insert(0u32, vec![4u32, 3]);
    rows.insert(2u32, vec![3u32, 4, 4]);
    assert_eq!(
        merge_square_runs(rows),
        vec![rect(3, 4, 0, 0), rect(3, 4, 2, 2)]
    );
}

#[test]
fn consecutive_identical_runs_merge_into_one_rectangle() {
    let mut rows = BTreeMap::new();
    rows.insert(7u32, vec![9u32, 8, 10]);
    rows.insert(8u32, vec![10u32, 8, 9]);
    rows.insert(9u32, vec![8u32, 9, 10]);
    assert_eq!(merge_square_runs(rows), vec![rect(8, 10, 7, 9)]);
}

#[test]
fn merge_of_no_rows_is_empty() {
    assert!(merge_square_runs(BTreeMap::new()).is_empty());
}

#[test]
fn contiguous_runs_of_sorted_values() {
    assert_eq!(
        contiguous_runs(&[1, 2, 3, 5, 7, 8]),
        vec![(1, 3), (5, 5), (7, 8)]
    );
    assert_eq!(contiguous_runs(&[]), Vec::<(u32, u32)>::new());
    assert_eq!(contiguous_runs(&[u32::MAX]), vec![(u32::MAX, u32::MAX)]);
}

#[test]
fn contiguous_runs_follow_input_order() {
    assert_eq!(contiguous_runs(&[3, 4, 1, 2, 2]), vec![(3, 4), (1, 2), (2, 2)]);
}

#[test]
fn square_dimension_is_a_power_of_two() {
    assert_eq!(square_dimension(0), 1);
    assert_eq!(square_dimension(12), 4096);
    assert_eq!(square_dimension(24), 16_777_216);
}

#[test]
fn square_zoom_limit() {
    assert_eq!(validate_square_zoom(24), Ok(()));
    assert_eq!(
        validate_square_zoom(25),
        Err(GridError::SquareZoomTooLarge { zoom: 25 })
    );
}

#[test]
fn square_cell_must_lie_on_the_grid() {
    assert_eq!(validate_square_cell(1, SquareCell { x: 1, y: 1 }), Ok(()));
    assert_eq!(
        validate_square_cell(1, SquareCell { x: 2, y: 0 }),
        Err(GridError::SquareCellOutsideZoom { zoom: 1, x: 2, y: 0 })
    );
    assert_eq!(
        validate_square_cell(30, SquareCell { x: 0, y: 0 }),
        Err(GridError::SquareZoomTooLarge { zoom: 30 })
    );
}

#[test]
fn max_cells_must_be_positive() {
    assert_eq!(default_max_cells(), 250_000);
    assert_eq!(validate_max_cells(1), Ok(()));
    assert_eq!(validate_max_cells(0), Err(GridError::MaxCellsZero));
}

#[test]
fn square_cell_limit_counts_distinct_cells() {
    let mut cells = BTreeSet::new();
    assert_eq!(insert_square_cell(&mut cells, SquareCell { x: 1, y: 1 }, 1), Ok(()));
    assert_eq!(insert_square_cell(&mut cells, SquareCell { x: 1, y: 1 }, 1), Ok(()));
    assert_eq!(
        insert_square_cell(&mut cells, SquareCell { x: 2, y: 1 }, 1),
        Err(GridError::SquareCoverageExceedsMaxCells { max_cells: 1 })
    );
    assert_eq!(cells.len(), 2);
}

#[test]
fn square_cell_set_orders_by_column_then_row() {
    let mut cells = BTreeSet::new();
    for (x, y) in [(5, 1), (1, 9), (1, 2)] {
        cells.insert((x, y));
    }
    let set = square_cell_set(7, &cells);
    assert_eq!(set.zoom, 7);
    assert_eq!(
        set.cells,
        vec![
            SquareCell { x: 1, y: 2 },
            SquareCell { x: 1, y: 9 },
            SquareCell { x: 5, y: 1 },
        ]
    );
}

#[test]
fn candidate_count_limit() {
    assert_eq!(square_candidate_count(0, 9, 5, 14), Ok(100));
    assert_eq!(
        square_candidate_count(0, 1999, 0, 1000),
        Err(GridError::SquareScanTooLarge {
            candidate_count: 2_002_000
        })
    );
    assert_eq!(square_candidate_count(0, 1999, 0, 999), Ok(2_000_000));
}

#[test]
fn scan_selects_the_squares_the_predicate_accepts() {
    let mut output = BTreeSet::new();
    let result = scan_square_cells(2, 5, 2, 5, 100, |cell: SquareCell| cell.x == cell.y, &mut output);
    assert_eq!(result, Ok(()));
    let expected: BTreeSet<(u32, u32)> = [(2, 2), (3, 3), (4, 4), (5, 5)].into_iter().collect();
    assert_eq!(output, expected);
}

#[test]
fn scan_stops_at_the_cell_limit() {
    let mut output = BTreeSet::new();
    let result = scan_square_cells(0, 3, 0, 3, 5, |_cell: SquareCell| true, &mut output);
    assert_eq!(
        result,
        Err(GridError::SquareCoverageExceedsMaxCells { max_cells: 5 })
    );
    assert_eq!(output.len(), 6);
}

#[test]
fn scan_refuses_an_oversized_window() {
    let mut output = BTreeSet::new();
    let result = scan_square_cells(0, 4095, 0, 4095, 10, |_cell: SquareCell| true, &mut output);
    assert_eq!(
        result,
        Err(GridError::SquareScanTooLarge {
            candidate_count: 4096 * 4096
        })
    );
    assert!(output.is_empty());
}

#[test]
fn square_error_messages() {
    assert_eq!(
        GridError::MaxCellsZero.message(),
        "maxCells must be greater than zero"
    );
    assert_eq!(
        GridError::SquareZoomTooLarge { zoom: 30 }.message(),
        "square zoom must not exceed 24"
    );
    assert_eq!(
        GridError::SquareCellOutsideZoom { zoom: 2, x: 4, y: 0 }.message(),
        "square cell 2/4/0 is outside zoom 2"
    );
    assert_eq!(
        GridError::SquareCoverageExceedsMaxCells { max_cells: 10 }.message(),
        "square coverage exceeds maxCells (10)"
    );
    assert_eq!(
        GridError::SquareScanTooLarge {
            candidate_count: 2_002_000
        }
        .message(),
        "square-grid scan would inspect 2002000 cells; limit is 2000000"
    );
}

#[test]
fn canonical_square_set_reconstructs_to_its_cells() {
    let cells = [(5, 1), (2, 3), (3, 3), (2, 4), (3, 4), (7, 7)];
    let mut found = BTreeSet::new();
    for &(x, y) in cells.iter().rev() {
        insert_square_cell(&mut found, SquareCell { x, y }, 100).expect("within the limit");
    }
    let set = square_cell_set(3, &found);
    let SquareReconstruction::Rectangles(rectangles) =
        square_cells_to_rectangles(&set).expect("reconstruction")
    else {
        panic!("expected rectangles");
    };
    covers_each_cell_once(&cells, &rectangles);
}

#[test]
fn reconstruction_does_not_depend_on_cell_order() {
    let cells = [(0, 0), (1, 0), (0, 1), (1, 1), (3, 1), (2, 2), (3, 2)];
    let mut reversed = cells.to_vec();
    reversed.reverse();
    reversed.push((1, 0));
    assert_eq!(rectangles_of(2, &cells), rectangles_of(2, &reversed));
}

#[test]
fn scan_accepts_a_window_of_exactly_the_limit() {
    let mut output = BTreeSet::new();
    let result = scan_square_cells(0, 1999, 0, 999, 10, |cell: SquareCell| cell.x == 1999 && cell.y == 999, &mut output);
    assert_eq!(result, Ok(()));
    let expected: BTreeSet<(u32, u32)> = [(1999, 999)].into_iter().collect();
    assert_eq!(output, expected);
    assert_eq!(square_candidate_count(0, 1999, 0, 999), Ok(2_000_000));
    assert_eq!(
        square_candidate_count(0, 2000, 0, 999),
        Err(GridError::SquareScanTooLarge { candidate_count: 2_001_000 })
    );
}

#[test]
fn scan_over_a_full_output_fails_only_when_a_square_is_selected() {
    let mut output: BTreeSet<(u32, u32)> = [(0, 0), (1, 1), (2, 2)].into_iter().collect();
    assert_eq!(scan_square_cells(0, 2, 0, 2, 2, |_cell: SquareCell| false, &mut output), Ok(()));
    assert_eq!(output.len(), 3);
    assert_eq!(
        scan_square_cells(0, 2, 0, 2, 2, |cell: SquareCell| cell.x == 1 && cell.y == 1, &mut output),
        Err(GridError::SquareCoverageExceedsMaxCells { max_cells: 2 })
    );
    assert_eq!(output.len(), 3);
}
