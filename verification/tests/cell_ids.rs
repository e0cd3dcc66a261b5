use moenarch_geo_grid::SquareCell;

#[test]
fn square_cell_id_is_zoom_x_y() {
    assert_eq!(SquareCell { x: 2138, y: 1420 }.id(12), "12/2138/1420");
    assert_eq!(SquareCell { x: 0, y: 0 }.id(0), "0/0/0");
    assert_eq!(
        SquareCell {
            x: u32::MAX,
            y: 10
        }
        .id(255),
        "255/4294967295/10"
    );
}

#[test]
fn square_cell_id_splits_into_three_parts() {
    let id = SquareCell { x: 2138, y: 1420 }.id(12);
    assert_eq!(id.split('/').count(), 3);
}

#[test]
fn distinct_cells_have_distinct_ids() {
    let a = SquareCell { x: 1, y: 23 }.id(5);
    let b = SquareCell { x: 12, y: 3 }.id(5);
    assert_ne!(a, b);
}
