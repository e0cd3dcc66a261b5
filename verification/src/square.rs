//! The integer side of the Web-Mercator square grid: zoom and cell
//! validation, cell limits, canonical cell order and the reconstruction of a
//! cell set as maximal rectangles.
use std::collections::{BTreeMap, BTreeSet};
use vstd::arithmetic::power2::pow2;
use vstd::prelude::*;
use vstd::std_specs::iter::IteratorSpec;
use vstd::std_specs::cmp::OrdSpec;

use crate::blocks::{
    in_grid, is_block_list, lemma_block_list_tiles, lemma_block_list_unique, rect_contains, tiles,
    SquareRectangle,
};
use crate::merge::{merge_square_runs, row_cells};
use crate::order::{lemma_sorted_unique, sorted_by};
use crate::types::{
    GridError, SquareCell, SquareCellSet, MAX_SQUARE_SCAN_CELLS, MAX_SQUARE_ZOOM,
};

verus! {

broadcast use {vstd::std_specs::btree::group_btree_axioms, vstd::laws_cmp::group_laws_cmp};

/// Number of squares along each axis of the grid at `zoom`: `2^zoom`.
pub fn square_dimension(zoom: u8) -> (dimension: u32)
    requires
        zoom < 32,
    ensures
        dimension == pow2(zoom as nat),
{
    proof {
        vstd::bits::lemma_u32_pow2_no_overflow(zoom as nat);
        vstd::bits::lemma_u32_shl_is_mul(1, zoom as u32);
    }
    1u32 << (zoom as u32)
}

/// Refuses a zoom above `MAX_SQUARE_ZOOM`.
pub fn validate_square_zoom(zoom: u8) -> (result: Result<(), GridError>)
    ensures
        result is Ok <==> zoom <= MAX_SQUARE_ZOOM,
        result is Err ==> result == Err::<(), GridError>(GridError::SquareZoomTooLarge { zoom }),
{
    if zoom > MAX_SQUARE_ZOOM {
        return Err(GridError::SquareZoomTooLarge { zoom });
    }
    Ok(())
}

/// The cell lies on the grid of `zoom`.
pub open spec fn cell_on_grid(zoom: u8, cell: SquareCell) -> bool {
    cell.x < pow2(zoom as nat) && cell.y < pow2(zoom as nat)
}

/// The zoom-0 grid is the single square `(0, 0)`.
pub proof fn lemma_grid_at_zoom_zero(cell: SquareCell)
    ensures
        cell_on_grid(0, cell) <==> cell.x == 0 && cell.y == 0,
{
    vstd::arithmetic::power2::lemma2_to64();
}

/// Each zoom level splits every square into its four quarters: a square lies
/// on the grid of `zoom` exactly when any of its quarters (the squares whose
/// halved coordinates are its own) lies on the grid of `zoom + 1`.
pub proof fn lemma_grid_quarters(zoom: u8, cell: SquareCell, quarter: SquareCell)
    requires
        zoom < MAX_SQUARE_ZOOM,
        quarter.x / 2 == cell.x,
        quarter.y / 2 == cell.y,
    ensures
        cell_on_grid(zoom, cell) <==> cell_on_grid((zoom + 1) as u8, quarter),
{
    vstd::arithmetic::power2::lemma_pow2_unfold((zoom + 1) as nat);
}

/// The grid of every valid zoom has `2^zoom` squares along each axis, the
/// dimension that `square_dimension` computes: the square `(d - 1, d - 1)`
/// lies on it and neither `(d, 0)` nor `(0, d)` does.
pub proof fn lemma_grid_extent(zoom: u8)
    requires
        zoom <= MAX_SQUARE_ZOOM,
    ensures
        ({
            let d = pow2(zoom as nat);
            &&& d <= u32::MAX
            &&& cell_on_grid(zoom, SquareCell { x: (d - 1) as u32, y: (d - 1) as u32 })
            &&& !cell_on_grid(zoom, SquareCell { x: d as u32, y: 0 })
            &&& !cell_on_grid(zoom, SquareCell { x: 0, y: d as u32 })
        }),
{
    vstd::arithmetic::power2::lemma_pow2_pos(zoom as nat);
    vstd::arithmetic::power2::lemma_pow2_strictly_increases(zoom as nat, 32);
    vstd::arithmetic::power2::lemma2_to64();
}

/// Checks that `zoom` is valid and that `cell` lies on its grid.
pub fn validate_square_cell(zoom: u8, cell: SquareCell) -> (result: Result<(), GridError>)
    ensures
        zoom > MAX_SQUARE_ZOOM ==> result == Err::<(), GridError>(GridError::SquareZoomTooLarge { zoom }),
        zoom <= MAX_SQUARE_ZOOM && !cell_on_grid(zoom, cell) ==> result == Err::<(), GridError>(
            GridError::SquareCellOutsideZoom { zoom, x: cell.x, y: cell.y },
        ),
        result is Ok <==> zoom <= MAX_SQUARE_ZOOM && cell_on_grid(zoom, cell),
{
    validate_square_zoom(zoom)?;
    let dimension = square_dimension(zoom);
    if cell.x >= dimension || cell.y >= dimension {
        return Err(GridError::SquareCellOutsideZoom { zoom, x: cell.x, y: cell.y });
    }
    Ok(())
}

/// The grid coordinates of a cell, the key by which cell sets are ordered.
pub open spec fn cell_key(cell: SquareCell) -> (u32, u32) {
    (cell.x, cell.y)
}

/// Adds `cell` to `cells` and refuses the result when it holds more than `max_cells` cells.
pub fn insert_square_cell(
    cells: &mut BTreeSet<(u32, u32)>,
    cell: SquareCell,
    max_cells: usize,
) -> (result: Result<(), GridError>)
    ensures
        final(cells)@ == old(cells)@.insert(cell_key(cell)),
        result is Ok <==> final(cells)@.len() <= max_cells,
        result is Err ==> result == Err::<(), GridError>(
            GridError::SquareCoverageExceedsMaxCells { max_cells },
        ),
{
    cells.insert((cell.x, cell.y));
    if cells.len() > max_cells {
        return Err(GridError::SquareCoverageExceedsMaxCells { max_cells });
    }
    Ok(())
}

/// The cells held by a `BTreeSet` form a finite set.
proof fn lemma_btree_set_finite(cells: &BTreeSet<(u32, u32)>)
    ensures
        cells@.finite(),
{
    let keys = vstd::std_specs::btree::spec_btree_keys_iter(cells).remaining();
    vstd::std_specs::btree::axiom_spec_btree_keys_iter(cells);
    vstd::seq_lib::seq_to_set_is_finite(keys.unref());
}

/// `a` comes before `b` in the canonical cell order: by column, then by row.
pub open spec fn cell_before(a: SquareCell, b: SquareCell) -> bool {
    a.x < b.x || (a.x == b.x && a.y < b.y)
}

proof fn lemma_key_order(keys: Seq<&(u32, u32)>, i: int, j: int)
    requires
        vstd::std_specs::btree::increasing_seq(keys),
        0 <= i < j < keys.len(),
    ensures
        keys[i].0 < keys[j].0 || (keys[i].0 == keys[j].0 && keys[i].1 < keys[j].1),
{
    assert(vstd::laws_cmp::obeys_cmp::<(u32, u32)>());
    assert(vstd::laws_cmp::obeys_cmp::<&(u32, u32)>());
    assert(OrdSpec::cmp_spec(&keys[i], &keys[j]) is Less);
}

/// `set` is the canonical form of the square coverage `cells` at `zoom`: it
/// lists the cells, each once, ordered by column and then by row.
pub open spec fn is_canonical_square_set(set: SquareCellSet, zoom: u8, cells: Set<(u32, u32)>) -> bool {
    &&& set.zoom == zoom
    &&& forall|i: int, j: int| 0 <= i < j < set.cells@.len() ==> #[trigger] cell_before(set.cells@[i], set.cells@[j])
    &&& forall|c: SquareCell| #[trigger] set.cells@.contains(c) <==> cells.contains(cell_key(c))
}

/// The canonical form of a square coverage depends on its set of cells alone,
/// not on the order in which they were found.
pub proof fn lemma_canonical_square_set_unique(
    a: SquareCellSet,
    b: SquareCellSet,
    zoom: u8,
    cells: Set<(u32, u32)>,
)
    requires
        is_canonical_square_set(a, zoom, cells),
        is_canonical_square_set(b, zoom, cells),
    ensures
        a.zoom == b.zoom,
        a.cells@ == b.cells@,
{
    let before = |p: SquareCell, q: SquareCell| cell_before(p, q);
    assert(sorted_by(a.cells@, before));
    assert(sorted_by(b.cells@, before));
    lemma_sorted_unique(a.cells@, b.cells@, before);
}

/// The canonical form of a square coverage: its cells ordered by column, then by row.
pub fn square_cell_set(zoom: u8, cells: &BTreeSet<(u32, u32)>) -> (set: SquareCellSet)
    ensures
        is_canonical_square_set(set, zoom, cells@),
{
    let mut out: Vec<SquareCell> = Vec::new();
    let iter = cells.iter();
    let ghost items = iter.remaining();
    for key in it: iter
        invariant
            items == iter.remaining(),
            it.seq() == items,
            out@.len() == it.index(),
            forall|k: int| 0 <= k < out@.len() ==> out@[k].x == it.seq()[k].0 && out@[k].y == it.seq()[k].1,
    {
        out.push(SquareCell { x: key.0, y: key.1 });
    }
    proof {
        assert(items.unref().to_set() == cells@);
        assert forall|i: int, j: int| 0 <= i < j < out@.len() implies cell_before(out@[i], out@[j]) by {
            lemma_key_order(items, i, j);
        }
        assert forall|c: SquareCell| #[trigger] out@.contains(c) <==> cells@.contains(cell_key(c)) by {
            if out@.contains(c) {
                let k = choose|k: int| 0 <= k < out@.len() && out@[k] == c;
                assert(items.unref()[k] == cell_key(c));
                assert(items.unref().contains(cell_key(c)));
            }
            if cells@.contains(cell_key(c)) {
                assert(items.unref().to_set().contains(cell_key(c)));
                let k = choose|k: int| 0 <= k < items.len() && items.unref()[k] == cell_key(c);
                assert(out@[k] == c);
            }
        }
    }
    SquareCellSet { zoom, cells: out }
}

/// Number of squares of the window `[min_x, max_x] x [min_y, max_y]`.
pub open spec fn window_size(min_x: u32, max_x: u32, min_y: u32, max_y: u32) -> int {
    (max_x - min_x + 1) * (max_y - min_y + 1)
}

/// The cell lies in the window `[min_x, max_x] x [min_y, max_y]`.
pub open spec fn in_window(c: (u32, u32), min_x: u32, max_x: u32, min_y: u32, max_y: u32) -> bool {
    min_x <= c.0 <= max_x && min_y <= c.1 <= max_y
}

/// The size of a window counts its squares: one square is one, and adding a
/// column adds one square per row, adding a row one square per column.
pub proof fn lemma_window_size_counts(min_x: u32, max_x: u32, min_y: u32, max_y: u32)
    requires
        min_x <= max_x,
        min_y <= max_y,
    ensures
        window_size(min_x, min_x, min_y, min_y) == 1,
        window_size(max_x, max_x, min_y, max_y) == max_y - min_y + 1,
        window_size(min_x, max_x, max_y, max_y) == max_x - min_x + 1,
        min_x < max_x ==> window_size(min_x, max_x, min_y, max_y) == window_size(
            min_x,
            (max_x - 1) as u32,
            min_y,
            max_y,
        ) + (max_y - min_y + 1),
        min_y < max_y ==> window_size(min_x, max_x, min_y, max_y) == window_size(
            min_x,
            max_x,
            min_y,
            (max_y - 1) as u32,
        ) + (max_x - min_x + 1),
{
    assert((min_x - min_x + 1) * (min_y - min_y + 1) == 1) by (nonlinear_arith);
    assert((max_x - max_x + 1) * (max_y - min_y + 1) == max_y - min_y + 1) by (nonlinear_arith);
    assert((max_x - min_x + 1) * (max_y - max_y + 1) == max_x - min_x + 1) by (nonlinear_arith);
    assert((max_x - min_x + 1) * (max_y - min_y + 1) == (max_x - min_x) * (max_y - min_y + 1) + (max_y
        - min_y + 1)) by (nonlinear_arith);
    assert((max_x - min_x + 1) * (max_y - min_y + 1) == (max_x - min_x + 1) * (max_y - min_y) + (max_x
        - min_x + 1)) by (nonlinear_arith);
}

/// The squares of the window `[min_x, max_x] x [min_y, max_y]`.
pub open spec fn window_cells(min_x: u32, max_x: u32, min_y: u32, max_y: u32) -> Set<(u32, u32)> {
    Set::new(|k: (u32, u32)| in_window(k, min_x, max_x, min_y, max_y))
}

/// The size of a window is the number of its squares.
pub proof fn lemma_window_size_is_cardinality(min_x: u32, max_x: u32, min_y: u32, max_y: u32)
    requires
        min_x <= max_x,
        min_y <= max_y,
    ensures
        window_cells(min_x, max_x, min_y, max_y).finite(),
        window_cells(min_x, max_x, min_y, max_y).len() == window_size(min_x, max_x, min_y, max_y),
    decreases max_x - min_x,
{
    lemma_window_size_counts(min_x, max_x, min_y, max_y);
    lemma_column_cardinality(max_x, min_y, max_y);
    let column = window_cells(max_x, max_x, min_y, max_y);
    if min_x == max_x {
        return;
    }
    let left = window_cells(min_x, (max_x - 1) as u32, min_y, max_y);
    lemma_window_size_is_cardinality(min_x, (max_x - 1) as u32, min_y, max_y);
    assert(window_cells(min_x, max_x, min_y, max_y) =~= left + column);
    assert(left.disjoint(column));
    vstd::set_lib::lemma_set_disjoint_lens(left, column);
}

proof fn lemma_column_cardinality(x: u32, min_y: u32, max_y: u32)
    requires
        min_y <= max_y,
    ensures
        window_cells(x, x, min_y, max_y).finite(),
        window_cells(x, x, min_y, max_y).len() == max_y - min_y + 1,
    decreases max_y - min_y,
{
    if min_y == max_y {
        assert(window_cells(x, x, min_y, max_y) =~= Set::empty().insert((x, min_y)));
    } else {
        let top = window_cells(x, x, min_y, (max_y - 1) as u32);
        lemma_column_cardinality(x, min_y, (max_y - 1) as u32);
        assert(window_cells(x, x, min_y, max_y) =~= top.insert((x, max_y)));
        assert(!top.contains((x, max_y)));
    }
}

/// Counts the squares of a scan window and refuses a window of more than
/// `MAX_SQUARE_SCAN_CELLS` squares.
pub fn square_candidate_count(min_x: u32, max_x: u32, min_y: u32, max_y: u32) -> (result: Result<
    u64,
    GridError,
>)
    requires
        min_x <= max_x,
        min_y <= max_y,
        max_x - min_x < u32::MAX,
        max_y - min_y < u32::MAX,
    ensures
        window_size(min_x, max_x, min_y, max_y) <= MAX_SQUARE_SCAN_CELLS ==> result == Ok::<u64, GridError>(
            window_size(min_x, max_x, min_y, max_y) as u64,
        ),
        window_size(min_x, max_x, min_y, max_y) > MAX_SQUARE_SCAN_CELLS ==> result == Err::<u64, GridError>(
            GridError::SquareScanTooLarge {
                candidate_count: window_size(min_x, max_x, min_y, max_y) as u64,
            },
        ),
{
    let width = (max_x - min_x + 1) as u64;
    let height = (max_y - min_y + 1) as u64;
    assert(width * height <= u64::MAX) by (nonlinear_arith)
        requires
            width <= u32::MAX,
            height <= u32::MAX,
    ;
    let candidate_count = width * height;
    if candidate_count > MAX_SQUARE_SCAN_CELLS {
        return Err(GridError::SquareScanTooLarge { candidate_count });
    }
    Ok(candidate_count)
}

/// Scans the window `[min_x, max_x] x [min_y, max_y]` row by row and adds every
/// square that `intersects` selects to `output`, stopping with an error at the
/// first addition that takes `output` past `max_cells` cells. A window of more
/// than `MAX_SQUARE_SCAN_CELLS` squares is refused before any square is inspected.
pub fn scan_square_cells<F: Fn(SquareCell) -> bool>(
    min_x: u32,
    max_x: u32,
    min_y: u32,
    max_y: u32,
    max_cells: usize,
    intersects: F,
    output: &mut BTreeSet<(u32, u32)>,
) -> (result: Result<(), GridError>)
    requires
        min_x <= max_x,
        min_y <= max_y,
        max_x - min_x < u32::MAX,
        max_y - min_y < u32::MAX,
        forall|c: SquareCell| #[trigger] call_requires(intersects, (c,)),
    ensures
        window_size(min_x, max_x, min_y, max_y) > MAX_SQUARE_SCAN_CELLS ==> result == Err::<(), GridError>(
            GridError::SquareScanTooLarge {
                candidate_count: window_size(min_x, max_x, min_y, max_y) as u64,
            },
        ) && final(output)@ == old(output)@,
        old(output)@.subset_of(final(output)@),
        forall|k: (u32, u32)|
            #[trigger] final(output)@.contains(k) ==> old(output)@.contains(k) || (in_window(
                k,
                min_x,
                max_x,
                min_y,
                max_y,
            ) && call_ensures(intersects, (SquareCell { x: k.0, y: k.1 },), true)),
        result is Ok ==> forall|k: (u32, u32)|
            in_window(k, min_x, max_x, min_y, max_y) && !#[trigger] final(output)@.contains(k)
                ==> call_ensures(intersects, (SquareCell { x: k.0, y: k.1 },), false),
        result is Ok ==> final(output)@.len() <= max_cells || (final(output)@ == old(output)@
            && forall|k: (u32, u32)|
            #[trigger] in_window(k, min_x, max_x, min_y, max_y) ==> call_ensures(
                intersects,
                (SquareCell { x: k.0, y: k.1 },),
                false,
            )),
        result matches Err(GridError::SquareScanTooLarge { .. }) ==> window_size(
            min_x,
            max_x,
            min_y,
            max_y,
        ) > MAX_SQUARE_SCAN_CELLS,
        result matches Err(GridError::SquareCoverageExceedsMaxCells { max_cells: m }) ==> {
            &&& m == max_cells
            &&& final(output)@.len() > max_cells
            &&& exists|k: (u32, u32)|
                in_window(k, min_x, max_x, min_y, max_y) && #[trigger] final(output)@.contains(k)
                    && call_ensures(intersects, (SquareCell { x: k.0, y: k.1 },), true)
        },
        old(output)@.len() <= max_cells && (result matches Err(
            GridError::SquareCoverageExceedsMaxCells { .. },
        )) ==> final(output)@.len() == max_cells + 1,
        result is Err ==> result matches Err(GridError::SquareScanTooLarge { .. }) || result
            matches Err(GridError::SquareCoverageExceedsMaxCells { .. }),
{
    square_candidate_count(min_x, max_x, min_y, max_y)?;
    let ghost start = output@;
    let mut y: u64 = min_y as u64;
    while y <= max_y as u64
        invariant
            window_size(min_x, max_x, min_y, max_y) <= MAX_SQUARE_SCAN_CELLS,
            min_y <= y <= max_y + 1,
            min_x <= max_x,
            forall|c: SquareCell| #[trigger] call_requires(intersects, (c,)),
            start == old(output)@,
            start.subset_of(output@),
            forall|k: (u32, u32)|
                #[trigger] output@.contains(k) ==> start.contains(k) || (in_window(k, min_x, max_x, min_y, max_y)
                    && call_ensures(intersects, (SquareCell { x: k.0, y: k.1 },), true)),
            forall|k: (u32, u32)|
                min_x <= k.0 <= max_x && min_y <= k.1 < y && !#[trigger] output@.contains(k)
                    ==> call_ensures(intersects, (SquareCell { x: k.0, y: k.1 },), false),
            output@.len() <= max_cells || (output@ == start && forall|k: (u32, u32)|
                min_x <= k.0 <= max_x && min_y <= k.1 < y ==> #[trigger] call_ensures(
                    intersects,
                    (SquareCell { x: k.0, y: k.1 },),
                    false,
                )),
        decreases max_y + 1 - y,
    {
        let mut x: u64 = min_x as u64;
        while x <= max_x as u64
            invariant
                window_size(min_x, max_x, min_y, max_y) <= MAX_SQUARE_SCAN_CELLS,
                min_y <= y <= max_y,
                min_x <= x <= max_x + 1,
                forall|c: SquareCell| #[trigger] call_requires(intersects, (c,)),
                start == old(output)@,
                start.subset_of(output@),
                forall|k: (u32, u32)|
                    #[trigger] output@.contains(k) ==> start.contains(k) || (in_window(k, min_x, max_x, min_y, max_y)
                        && call_ensures(intersects, (SquareCell { x: k.0, y: k.1 },), true)),
                forall|k: (u32, u32)|
                    ((min_x <= k.0 <= max_x && min_y <= k.1 < y) || (k.1 == y && min_x <= k.0 < x))
                        && !#[trigger] output@.contains(k) ==> call_ensures(intersects, (SquareCell { x: k.0, y: k.1 },), false),
                output@.len() <= max_cells || (output@ == start && forall|k: (u32, u32)|
                    ((min_x <= k.0 <= max_x && min_y <= k.1 < y) || (k.1 == y && min_x <= k.0 < x))
                        ==> #[trigger] call_ensures(intersects, (SquareCell { x: k.0, y: k.1 },), false)),
            decreases max_x + 1 - x,
        {
            let cell = SquareCell { x: x as u32, y: y as u32 };
            let selected = intersects(cell);
            if selected {
                let ghost before = output@;
                proof {
                    lemma_btree_set_finite(&*output);
                }
                match insert_square_cell(output, cell, max_cells) {
                    Ok(()) => {},
                    Err(error) => {
                        proof {
                            let k = (x as u32, y as u32);
                            assert(in_window(k, min_x, max_x, min_y, max_y));
                            assert(output@.contains(k));
                            if start.len() <= max_cells {
                                assert(before.len() <= max_cells);
                                assert(output@.len() <= before.len() + 1);
                            }
                        }
                        return Err(error);
                    },
                }
            }
            x += 1;
        }
        y += 1;
    }
    Ok(())
}

/// Whether any cell of `cells` has the coordinates `(x, y)`.
pub open spec fn listed_cells(cells: Seq<SquareCell>) -> spec_fn(int, int) -> bool {
    |x: int, y: int| exists|i: int| 0 <= i < cells.len() && cells[i].x == x && cells[i].y == y
}

/// The reconstruction of a square cell set depends on which cells it holds
/// alone: two lists that hold the same cells, in any order and with any
/// repetitions, reconstruct to the same rectangles.
pub proof fn lemma_reconstruction_ignores_order(
    a: Seq<SquareCell>,
    b: Seq<SquareCell>,
    ra: Seq<SquareRectangle>,
    rb: Seq<SquareRectangle>,
)
    requires
        forall|x: int, y: int| #[trigger] listed_cells(a)(x, y) == listed_cells(b)(x, y),
        is_block_list(listed_cells(a), ra),
        is_block_list(listed_cells(b), rb),
    ensures
        ra == rb,
{
    assert(listed_cells(a) =~= listed_cells(b));
    lemma_block_list_unique(listed_cells(a), ra, rb);
}

/// Reconstructing the canonical form of a square coverage gives back exactly
/// its cells: a square lies in one of the rectangles if and only if it is a
/// cell of the coverage, and then in exactly one.
pub proof fn lemma_square_round_trip(
    zoom: u8,
    cells: Set<(u32, u32)>,
    set: SquareCellSet,
    rs: Seq<SquareRectangle>,
)
    requires
        is_canonical_square_set(set, zoom, cells),
        is_block_list(listed_cells(set.cells@), rs),
    ensures
        forall|x: u32, y: u32| #[trigger] cells.contains((x, y)) <==> exists|i: int|
            0 <= i < rs.len() && rect_contains(rs[i], x as int, y as int),
        tiles(listed_cells(set.cells@), rs),
{
    let c = listed_cells(set.cells@);
    assert(in_grid(c));
    lemma_block_list_tiles(c, rs);
    assert forall|x: u32, y: u32| #[trigger] cells.contains((x, y)) <==> exists|i: int|
        0 <= i < rs.len() && rect_contains(rs[i], x as int, y as int) by {
        let cell = SquareCell { x, y };
        assert(cell_key(cell) == (x, y));
        if cells.contains((x, y)) {
            assert(set.cells@.contains(cell));
            let k = choose|k: int| 0 <= k < set.cells@.len() && set.cells@[k] == cell;
            assert(c(x as int, y as int));
        }
        if c(x as int, y as int) {
            let k = choose|k: int| 0 <= k < set.cells@.len() && set.cells@[k].x == x && set.cells@[k].y == y;
            assert(set.cells@[k] == cell);
            assert(set.cells@.contains(cell));
        }
    }
}

/// How a square cell set is reconstructed.
#[derive(Debug, Clone, PartialEq, Eq)]
pub enum SquareReconstruction {
    /// The set holds no cell.
    Empty,
    /// Maximal rectangles that cover exactly the cells of the set.
    Rectangles(Vec<SquareRectangle>),
}

/// Reconstructs a square cell set as maximal rectangles.
///
/// The zoom is checked first, then each cell in order; a cell off the grid of
/// the zoom is reported. Repeated cells count once. The rectangles are the
/// maximal vertical stacks of maximal horizontal runs, ordered by their last
/// row and then by their first column, and they cover exactly the cells of the
/// set, each cell once.
pub fn square_cells_to_rectangles(cell_set: &SquareCellSet) -> (result: Result<
    SquareReconstruction,
    GridError,
>)
    ensures
        cell_set.zoom > MAX_SQUARE_ZOOM ==> result == Err::<SquareReconstruction, GridError>(
            GridError::SquareZoomTooLarge { zoom: cell_set.zoom },
        ),
        cell_set.zoom <= MAX_SQUARE_ZOOM && cell_set.cells@.len() == 0 ==> result == Ok::<
            SquareReconstruction,
            GridError,
        >(SquareReconstruction::Empty),
        cell_set.zoom <= MAX_SQUARE_ZOOM && cell_set.cells@.len() > 0 && (exists|i: int|
            0 <= i < cell_set.cells@.len() && !cell_on_grid(cell_set.zoom, #[trigger] cell_set.cells@[i]))
            ==> exists|i: int|
            0 <= i < cell_set.cells@.len() && !cell_on_grid(cell_set.zoom, #[trigger] cell_set.cells@[i])
                && (forall|j: int| 0 <= j < i ==> cell_on_grid(cell_set.zoom, #[trigger] cell_set.cells@[j]))
                && result == Err::<SquareReconstruction, GridError>(
                GridError::SquareCellOutsideZoom {
                    zoom: cell_set.zoom,
                    x: cell_set.cells@[i].x,
                    y: cell_set.cells@[i].y,
                },
            ),
        cell_set.zoom <= MAX_SQUARE_ZOOM && cell_set.cells@.len() > 0 && (forall|i: int|
            0 <= i < cell_set.cells@.len() ==> cell_on_grid(cell_set.zoom, #[trigger] cell_set.cells@[i]))
            ==> match result {
            Ok(SquareReconstruction::Rectangles(rs)) => {
                &&& rs@.len() > 0
                &&& is_block_list(listed_cells(cell_set.cells@), rs@)
                &&& tiles(listed_cells(cell_set.cells@), rs@)
            },
            _ => false,
        },
{
    validate_square_zoom(cell_set.zoom)?;
    if cell_set.cells.len() == 0 {
        return Ok(SquareReconstruction::Empty);
    }
    let zoom = cell_set.zoom;
    let cells = &cell_set.cells;
    let dimension = square_dimension(zoom);
    let mut rows: BTreeMap<u32, Vec<u32>> = BTreeMap::new();
    let mut unique: BTreeSet<(u32, u32)> = BTreeSet::new();
    let mut i: usize = 0;
    assert(row_cells(rows@) =~= listed_cells(cells@.take(0)));
    while i < cells.len()
        invariant
            i <= cells@.len(),
            zoom == cell_set.zoom,
            zoom <= MAX_SQUARE_ZOOM,
            cells@ == cell_set.cells@,
            cells@.len() > 0,
            dimension == pow2(zoom as nat),
            forall|j: int| 0 <= j < i ==> cell_on_grid(zoom, #[trigger] cells@[j]),
            forall|x: u32, y: u32| #[trigger] unique@.contains((x, y)) <==> listed_cells(cells@.take(i as int))(x as int, y as int),
            row_cells(rows@) == listed_cells(cells@.take(i as int)),
        decreases cells@.len() - i,
    {
        let cell = cells[i];
        if cell.x >= dimension || cell.y >= dimension {
            proof {
                assert(!cell_on_grid(zoom, cells@[i as int]));
            }
            return Err(GridError::SquareCellOutsideZoom { zoom, x: cell.x, y: cell.y });
        }
        let ghost before = listed_cells(cells@.take(i as int));
        let ghost after = listed_cells(cells@.take(i + 1));
        proof {
            assert forall|x: int, y: int| #[trigger] after(x, y) <==> before(x, y) || (x == cell.x && y == cell.y) by {
                if after(x, y) {
                    let j = choose|j: int| 0 <= j < i + 1 && (#[trigger] cells@.take(i + 1)[j]).x == x && cells@.take(i + 1)[j].y == y;
                    if j < i {
                        assert(cells@.take(i as int)[j] == cells@[j]);
                    }
                }
                if before(x, y) {
                    let j = choose|j: int| 0 <= j < i && (#[trigger] cells@.take(i as int)[j]).x == x && cells@.take(i as int)[j].y == y;
                    assert(cells@.take(i + 1)[j] == cells@[j]);
                }
                if x == cell.x && y == cell.y {
                    assert(cells@.take(i + 1)[i as int] == cell);
                }
            }
        }
        let fresh = unique.insert((cell.x, cell.y));
        if fresh {
            let ghost old_rows = rows@;
            let removed = rows.remove(&cell.y);
            let ghost xs_old: Seq<u32> = match removed {
                Some(ref v) => v@,
                None => Seq::empty(),
            };
            let mut xs = match removed {
                Some(v) => v,
                None => Vec::new(),
            };
            xs.push(cell.x);
            let ghost xs_new = xs@;
            rows.insert(cell.y, xs);
            proof {
                assert(xs_new == xs_old.push(cell.x));
                assert(rows@ == old_rows.remove(cell.y).insert(cell.y, xs));
                assert forall|x: int, y: int| #[trigger] row_cells(rows@)(x, y) == after(x, y) by {
                    assert(row_cells(old_rows)(x, y) == before(x, y));
                    if y == cell.y && 0 <= x <= u32::MAX {
                        assert(rows@[cell.y]@ == xs_new);
                        assert(row_cells(old_rows)(x, y) == xs_old.contains(x as u32));
                        assert(xs_new.contains(x as u32) == (xs_old.contains(x as u32) || x == cell.x)) by {
                            if xs_new.contains(x as u32) && x != cell.x {
                                let k = choose|k: int| 0 <= k < xs_new.len() && xs_new[k] == x as u32;
                                assert(xs_old[k] == x as u32);
                            }
                            if xs_old.contains(x as u32) {
                                let k = choose|k: int| 0 <= k < xs_old.len() && xs_old[k] == x as u32;
                                assert(xs_new[k] == x as u32);
                            }
                            if x == cell.x {
                                assert(xs_new[xs_new.len() - 1] == cell.x);
                            }
                        }
                    }
                }
                assert(row_cells(rows@) =~= after);
            }
        } else {
            proof {
                assert(before(cell.x as int, cell.y as int));
                assert forall|x: int, y: int| #[trigger] row_cells(rows@)(x, y) == after(x, y) by {
                    assert(row_cells(rows@)(x, y) == before(x, y));
                }
                assert(row_cells(rows@) =~= after);
            }
        }
        i += 1;
        proof {
            assert(cells@[i - 1] == cell);
        }
    }
    proof {
        assert(cells@.take(cells@.len() as int) =~= cells@);
    }
    let rectangles = merge_square_runs(rows);
    proof {
        assert(cells@.len() > 0);
        assert(listed_cells(cells@)(cells@[0].x as int, cells@[0].y as int));
        assert(tiles(listed_cells(cells@), rectangles@));
    }
    Ok(SquareReconstruction::Rectangles(rectangles))
}

} // verus!
