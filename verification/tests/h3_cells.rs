use std::collections::HashSet;

use moenarch_geo_grid::{
    accept_h3_cell, canonical_h3_cell_set, h3_cell_set_indexes, h3_cell_text,
    h3_index_resolution, insert_h3_cell, sort_texts, validate_h3_resolution, GridError,
    H3CellSet, H3Reconstruction,
};

const CELL: u64 = 0x8a1fb46622dffff;

#[test]
fn empty_h3_cell_set_reconstructs_to_nothing() {
    assert_eq!(
        h3_cell_set_indexes(&H3CellSet {
            resolution: 8,
            cells: Vec::new(),
        }),
        Ok(H3Reconstruction::Empty)
    );
}

#[test]
fn h3_resolution_range() {
    assert_eq!(validate_h3_resolution(0), Ok(()));
    assert_eq!(validate_h3_resolution(15), Ok(()));
    assert_eq!(
        validate_h3_resolution(16),
        Err(GridError::InvalidH3Resolution {
            resolution: 16,
            reason: "invalid resolution (got Some(16)): out of range".to_string()
        })
    );
}

#[test]
fn h3_resolution_is_read_from_the_index() {
    assert_eq!(h3_index_resolution(CELL), 10);
    assert_eq!(h3_index_resolution(0x85283473fffffff), 5);
}

#[test]
fn h3_cell_text_is_lower_case_hexadecimal() {
    assert_eq!(h3_cell_text(CELL), "8a1fb46622dffff");
    assert_eq!(h3_cell_text(0), "0");
    assert_eq!(h3_cell_text(0xABC), "abc");
}

#[test]
fn h3_cell_set_parses_and_keeps_first_occurrences() {
    let set = H3CellSet {
        resolution: 10,
        cells: vec![
            "8a1fb46622dffff".to_string(),
            "8a1fb46622d7fff".to_string(),
            "8a1fb46622dffff".to_string(),
        ],
    };
    assert_eq!(
        h3_cell_set_indexes(&set),
        Ok(H3Reconstruction::Cells(vec![CELL, 0x8a1fb46622d7fff]))
    );
}

#[test]
fn h3_cell_set_rejects_text_that_names_no_cell() {
    let set = H3CellSet {
        resolution: 10,
        cells: vec!["8a1fb46622dffff".to_string(), "not-a-cell".to_string()],
    };
    assert_eq!(
        h3_cell_set_indexes(&set),
        Err(GridError::InvalidH3Cell {
            value: "not-a-cell".to_string(),
            reason: "invalid cell index (got None): invalid 64-bit hex number".to_string()
        })
    );
}

#[test]
fn h3_cell_set_rejects_cell_of_other_resolution() {
    let set = H3CellSet {
        resolution: 9,
        cells: vec!["8a1fb46622dffff".to_string()],
    };
    assert_eq!(
        h3_cell_set_indexes(&set),
        Err(GridError::H3CellResolutionMismatch {
            value: "8a1fb46622dffff".to_string(),
            resolution: 9
        })
    );
}

#[test]
fn h3_cell_set_checks_resolution_first() {
    let set = H3CellSet {
        resolution: 16,
        cells: vec!["not-a-cell".to_string()],
    };
    assert_eq!(
        h3_cell_set_indexes(&set),
        Err(GridError::InvalidH3Resolution {
            resolution: 16,
            reason: "invalid resolution (got Some(16)): out of range".to_string()
        })
    );
}

#[test]
fn h3_cell_limit_counts_distinct_cells() {
    let mut cells = HashSet::new();
    assert_eq!(insert_h3_cell(&mut cells, CELL, 1), Ok(()));
    assert_eq!(insert_h3_cell(&mut cells, CELL, 1), Ok(()));
    assert_eq!(
        insert_h3_cell(&mut cells, 0x8a1fb46622d7fff, 1),
        Err(GridError::H3CoverageExceedsMaxCells { max_cells: 1 })
    );
}

#[test]
fn canonical_h3_cell_set_is_sorted_lexicographically() {
    let mut cells = HashSet::new();
    for bits in [0xf, 0x10, CELL, 0x8a1fb46622d7fff] {
        cells.insert(bits);
    }
    let set = canonical_h3_cell_set(10, &cells);
    assert_eq!(set.resolution, 10);
    assert_eq!(
        set.cells,
        vec![
            "10".to_string(),
            "8a1fb46622d7fff".to_string(),
            "8a1fb46622dffff".to_string(),
            "f".to_string(),
        ]
    );
}

#[test]
fn canonical_h3_cell_set_does_not_depend_on_insertion_order() {
    let forward: HashSet<u64> = [CELL, 0x8a1fb46622d7fff, 0x85283473fffffff].into_iter().collect();
    let backward: HashSet<u64> = [0x85283473fffffff, 0x8a1fb46622d7fff, CELL].into_iter().collect();
    assert_eq!(canonical_h3_cell_set(10, &forward), canonical_h3_cell_set(10, &backward));
}

#[test]
fn sort_texts_orders_by_code_point() {
    let texts = vec!["b".to_string(), "ab".to_string(), "a".to_string(), "B".to_string()];
    assert_eq!(
        sort_texts(texts),
        vec!["B".to_string(), "a".to_string(), "ab".to_string(), "b".to_string()]
    );
}

#[test]
fn h3_cell_set_reports_why_a_valid_hex_number_names_no_cell() {
    let set = H3CellSet {
        resolution: 10,
        cells: vec!["ffffffffffffffff".to_string()],
    };
    let Err(GridError::InvalidH3Cell { value, reason }) = h3_cell_set_indexes(&set) else {
        panic!("expected an invalid cell");
    };
    assert_eq!(value, "ffffffffffffffff");
    assert!(reason.starts_with("invalid cell index (got Some(18446744073709551615))"));
}

#[test]
fn h3_error_messages() {
    assert_eq!(
        GridError::InvalidH3Resolution {
            resolution: 16,
            reason: "invalid resolution (got Some(16)): out of range".to_string()
        }
        .message(),
        "invalid H3 resolution: invalid resolution (got Some(16)): out of range"
    );
    assert_eq!(
        GridError::InvalidH3Cell {
            value: "zz".to_string(),
            reason: "bad".to_string()
        }
        .message(),
        "invalid H3 cell `zz`: bad"
    );
    assert_eq!(
        GridError::H3CellResolutionMismatch {
            value: "8a1fb46622dffff".to_string(),
            resolution: 9
        }
        .message(),
        "H3 cell `8a1fb46622dffff` does not match resolution 9"
    );
    assert_eq!(
        GridError::H3CoverageExceedsMaxCells { max_cells: 100 }.message(),
        "H3 coverage exceeds maxCells (100)"
    );
}

#[test]
fn canonical_h3_cell_set_reads_back_to_its_cells() {
    let cells: HashSet<u64> = [CELL, 0x8a1fb46622d7fff].into_iter().collect();
    let set = canonical_h3_cell_set(10, &cells);
    assert_eq!(
        h3_cell_set_indexes(&set),
        Ok(H3Reconstruction::Cells(vec![0x8a1fb46622d7fff, CELL]))
    );
}

#[test]
fn accepting_parsed_cells_keeps_first_occurrences() {
    let mut seen = HashSet::new();
    let mut out = Vec::new();
    let value = "8a1fb46622dffff".to_string();
    assert_eq!(accept_h3_cell(&value, Ok(CELL), 10, &mut seen, &mut out), Ok(()));
    assert_eq!(accept_h3_cell(&value, Ok(CELL), 10, &mut seen, &mut out), Ok(()));
    assert_eq!(out, vec![CELL]);
    assert_eq!(
        accept_h3_cell(&value, Ok(CELL), 9, &mut seen, &mut out),
        Err(GridError::H3CellResolutionMismatch { value: value.clone(), resolution: 9 })
    );
    assert_eq!(
        accept_h3_cell(&value, Err("bad".to_string()), 10, &mut seen, &mut out),
        Err(GridError::InvalidH3Cell { value: value.clone(), reason: "bad".to_string() })
    );
    assert_eq!(out, vec![CELL]);
    assert_eq!(seen.len(), 1);
}
