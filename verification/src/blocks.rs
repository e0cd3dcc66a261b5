//! The mathematical model of square-cell reconstruction.
//!
//! A set of cells is described by a predicate `cells(x, y)` over grid
//! coordinates. A *run* of row `y` is a maximal horizontal interval of present
//! cells; a *block* is a maximal vertical stack of one and the same run over
//! consecutive rows. Reconstruction emits every block once, ordered by the row
//! where it ends and then by its first column.
use vstd::prelude::*;

use crate::order::{lemma_sorted_unique, sorted_by};

verus! {

/// An axis-aligned rectangle of square cells, both bounds inclusive.
#[derive(Debug, Clone, Copy, PartialEq, Eq, Structural)]
pub struct SquareRectangle {
    pub start_x: u32,
    pub end_x: u32,
    pub start_y: u32,
    pub end_y: u32,
}

/// Every present cell has coordinates that fit in `u32`.
pub open spec fn in_grid(cells: spec_fn(int, int) -> bool) -> bool {
    forall|x: int, y: int| #[trigger] cells(x, y) ==> 0 <= x <= u32::MAX && 0 <= y <= u32::MAX
}

/// `[sx, ex]` is a maximal interval of present cells in row `y`.
pub open spec fn is_run(cells: spec_fn(int, int) -> bool, sx: int, ex: int, y: int) -> bool {
    &&& sx <= ex
    &&& forall|x: int| sx <= x <= ex ==> #[trigger] cells(x, y)
    &&& !cells(sx - 1, y)
    &&& !cells(ex + 1, y)
}

/// `r` is a maximal vertical stack of the run `[r.start_x, r.end_x]`.
pub open spec fn is_block(cells: spec_fn(int, int) -> bool, r: SquareRectangle) -> bool {
    &&& r.start_y <= r.end_y
    &&& forall|y: int|
        r.start_y <= y <= r.end_y ==> #[trigger] is_run(cells, r.start_x as int, r.end_x as int, y)
    &&& !is_run(cells, r.start_x as int, r.end_x as int, r.start_y - 1)
    &&& !is_run(cells, r.start_x as int, r.end_x as int, r.end_y + 1)
}

/// The cell `(x, y)` lies in `r`.
pub open spec fn rect_contains(r: SquareRectangle, x: int, y: int) -> bool {
    &&& r.start_x <= x <= r.end_x
    &&& r.start_y <= y <= r.end_y
}

/// Emission order: by the last row, then by the first column.
pub open spec fn rect_precedes(a: SquareRectangle, b: SquareRectangle) -> bool {
    ||| a.end_y < b.end_y
    ||| (a.end_y == b.end_y && a.start_x < b.start_x)
}

/// `rs` lists every block of `cells` exactly once, in emission order.
pub open spec fn is_block_list(cells: spec_fn(int, int) -> bool, rs: Seq<SquareRectangle>) -> bool {
    &&& forall|i: int| 0 <= i < rs.len() ==> #[trigger] is_block(cells, rs[i])
    &&& forall|r: SquareRectangle| #[trigger] is_block(cells, r) ==> rs.contains(r)
    &&& forall|i: int, j: int| 0 <= i < j < rs.len() ==> #[trigger] rect_precedes(rs[i], rs[j])
}

/// The rectangles `rs` cover exactly the present cells, each cell once.
pub open spec fn tiles(cells: spec_fn(int, int) -> bool, rs: Seq<SquareRectangle>) -> bool {
    &&& forall|x: int, y: int|
        #[trigger] cells(x, y) <==> exists|i: int|
            0 <= i < rs.len() && #[trigger] rect_contains(rs[i], x, y)
    &&& forall|i: int, j: int, x: int, y: int|
        0 <= i < rs.len() && 0 <= j < rs.len() && i != j && #[trigger] rect_contains(rs[i], x, y)
            ==> !#[trigger] rect_contains(rs[j], x, y)
}

/// Two runs of one row that share a cell are the same run.
pub proof fn lemma_run_unique(
    cells: spec_fn(int, int) -> bool,
    sx1: int,
    ex1: int,
    sx2: int,
    ex2: int,
    y: int,
    x: int,
)
    requires
        is_run(cells, sx1, ex1, y),
        is_run(cells, sx2, ex2, y),
        sx1 <= x <= ex1,
        sx2 <= x <= ex2,
    ensures
        sx1 == sx2,
        ex1 == ex2,
{
    if sx1 < sx2 {
        assert(cells(sx2 - 1, y));
    }
    if sx2 < sx1 {
        assert(cells(sx1 - 1, y));
    }
    if ex1 < ex2 {
        assert(cells(ex1 + 1, y));
    }
    if ex2 < ex1 {
        assert(cells(ex2 + 1, y));
    }
}

/// Two stacks of the same run that both reach back to a row where the run
/// stops, and share a row, start at the same row.
pub proof fn lemma_stack_start_unique(
    cells: spec_fn(int, int) -> bool,
    sx: int,
    ex: int,
    sy1: int,
    sy2: int,
    y: int,
)
    requires
        sy1 <= y,
        sy2 <= y,
        forall|t: int| sy1 <= t <= y ==> #[trigger] is_run(cells, sx, ex, t),
        forall|t: int| sy2 <= t <= y ==> #[trigger] is_run(cells, sx, ex, t),
        !is_run(cells, sx, ex, sy1 - 1),
        !is_run(cells, sx, ex, sy2 - 1),
    ensures
        sy1 == sy2,
{
    if sy1 < sy2 {
        assert(is_run(cells, sx, ex, sy2 - 1));
    }
    if sy2 < sy1 {
        assert(is_run(cells, sx, ex, sy1 - 1));
    }
}

/// Two blocks that share a cell are equal.
pub proof fn lemma_block_unique(
    cells: spec_fn(int, int) -> bool,
    r1: SquareRectangle,
    r2: SquareRectangle,
    x: int,
    y: int,
)
    requires
        is_block(cells, r1),
        is_block(cells, r2),
        rect_contains(r1, x, y),
        rect_contains(r2, x, y),
    ensures
        r1 == r2,
{
    assert(is_run(cells, r1.start_x as int, r1.end_x as int, y));
    assert(is_run(cells, r2.start_x as int, r2.end_x as int, y));
    lemma_run_unique(cells, r1.start_x as int, r1.end_x as int, r2.start_x as int, r2.end_x as int, y, x);
    let sx = r1.start_x as int;
    let ex = r1.end_x as int;
    if r1.start_y < r2.start_y {
        assert(is_run(cells, sx, ex, r2.start_y - 1));
    }
    if r2.start_y < r1.start_y {
        assert(is_run(cells, sx, ex, r1.start_y - 1));
    }
    if r1.end_y < r2.end_y {
        assert(is_run(cells, sx, ex, r1.end_y + 1));
    }
    if r2.end_y < r1.end_y {
        assert(is_run(cells, sx, ex, r2.end_y + 1));
    }
}

/// First column of the stretch of present cells that reaches `(x, y)` from the left.
pub open spec fn run_low(cells: spec_fn(int, int) -> bool, x: int, y: int) -> int
    decreases x,
{
    if x > 0 && cells(x - 1, y) {
        run_low(cells, x - 1, y)
    } else {
        x
    }
}

/// Last column of the stretch of present cells that reaches `(x, y)` from the right.
pub open spec fn run_high(cells: spec_fn(int, int) -> bool, x: int, y: int) -> int
    decreases u32::MAX - x,
{
    if x < u32::MAX && cells(x + 1, y) {
        run_high(cells, x + 1, y)
    } else {
        x
    }
}

/// First row of the stack of the run `[sx, ex]` that reaches row `y`.
pub open spec fn stack_low(cells: spec_fn(int, int) -> bool, sx: int, ex: int, y: int) -> int
    decreases y,
{
    if y > 0 && is_run(cells, sx, ex, y - 1) {
        stack_low(cells, sx, ex, y - 1)
    } else {
        y
    }
}

/// Last row of the stack of the run `[sx, ex]` that reaches row `y`.
pub open spec fn stack_high(cells: spec_fn(int, int) -> bool, sx: int, ex: int, y: int) -> int
    decreases u32::MAX - y,
{
    if y < u32::MAX && is_run(cells, sx, ex, y + 1) {
        stack_high(cells, sx, ex, y + 1)
    } else {
        y
    }
}

proof fn lemma_run_low(cells: spec_fn(int, int) -> bool, x: int, y: int)
    requires
        in_grid(cells),
        cells(x, y),
    ensures
        0 <= run_low(cells, x, y) <= x,
        !cells(run_low(cells, x, y) - 1, y),
        forall|t: int| run_low(cells, x, y) <= t <= x ==> #[trigger] cells(t, y),
    decreases x,
{
    if x > 0 && cells(x - 1, y) {
        lemma_run_low(cells, x - 1, y);
    }
}

proof fn lemma_run_high(cells: spec_fn(int, int) -> bool, x: int, y: int)
    requires
        in_grid(cells),
        cells(x, y),
    ensures
        x <= run_high(cells, x, y) <= u32::MAX,
        !cells(run_high(cells, x, y) + 1, y),
        forall|t: int| x <= t <= run_high(cells, x, y) ==> #[trigger] cells(t, y),
    decreases u32::MAX - x,
{
    assert(x <= u32::MAX);
    if x < u32::MAX && cells(x + 1, y) {
        lemma_run_high(cells, x + 1, y);
    }
}

proof fn lemma_stack_low(cells: spec_fn(int, int) -> bool, sx: int, ex: int, y: int)
    requires
        in_grid(cells),
        is_run(cells, sx, ex, y),
        0 <= y,
    ensures
        0 <= stack_low(cells, sx, ex, y) <= y,
        !is_run(cells, sx, ex, stack_low(cells, sx, ex, y) - 1),
        forall|t: int| stack_low(cells, sx, ex, y) <= t <= y ==> #[trigger] is_run(cells, sx, ex, t),
    decreases y,
{
    assert(cells(sx, y));
    if y > 0 && is_run(cells, sx, ex, y - 1) {
        lemma_stack_low(cells, sx, ex, y - 1);
    } else if y == 0 {
        assert(!cells(sx, y - 1));
    }
}

proof fn lemma_stack_high(cells: spec_fn(int, int) -> bool, sx: int, ex: int, y: int)
    requires
        in_grid(cells),
        is_run(cells, sx, ex, y),
    ensures
        y <= stack_high(cells, sx, ex, y) <= u32::MAX,
        !is_run(cells, sx, ex, stack_high(cells, sx, ex, y) + 1),
        forall|t: int| y <= t <= stack_high(cells, sx, ex, y) ==> #[trigger] is_run(cells, sx, ex, t),
    decreases u32::MAX - y,
{
    assert(cells(sx, y));
    if y < u32::MAX && is_run(cells, sx, ex, y + 1) {
        lemma_stack_high(cells, sx, ex, y + 1);
    } else if y >= u32::MAX {
        assert(!cells(sx, y + 1));
    }
}

/// Every present cell lies in a block.
pub proof fn lemma_cell_in_block(cells: spec_fn(int, int) -> bool, x: int, y: int) -> (r:
    SquareRectangle)
    requires
        in_grid(cells),
        cells(x, y),
    ensures
        is_block(cells, r),
        rect_contains(r, x, y),
{
    lemma_run_low(cells, x, y);
    lemma_run_high(cells, x, y);
    let sx = run_low(cells, x, y);
    let ex = run_high(cells, x, y);
    assert forall|t: int| sx <= t <= ex implies #[trigger] cells(t, y) by {
        assert(t <= x || x <= t);
    }
    assert(is_run(cells, sx, ex, y));
    assert(0 <= y);
    lemma_stack_low(cells, sx, ex, y);
    lemma_stack_high(cells, sx, ex, y);
    let sy = stack_low(cells, sx, ex, y);
    let ey = stack_high(cells, sx, ex, y);
    let r = SquareRectangle { start_x: sx as u32, end_x: ex as u32, start_y: sy as u32, end_y: ey as u32 };
    assert forall|t: int| r.start_y <= t <= r.end_y implies #[trigger] is_run(
        cells,
        r.start_x as int,
        r.end_x as int,
        t,
    ) by {
        assert(t <= y || y <= t);
    }
    r
}

/// The blocks of a cell set tile it: every present cell lies in exactly one
/// rectangle of a block list, and no other cell lies in any of them.
pub proof fn lemma_block_list_tiles(cells: spec_fn(int, int) -> bool, rs: Seq<SquareRectangle>)
    requires
        in_grid(cells),
        is_block_list(cells, rs),
    ensures
        tiles(cells, rs),
{
    assert forall|x: int, y: int| #[trigger] cells(x, y) <==> exists|i: int|
        0 <= i < rs.len() && #[trigger] rect_contains(rs[i], x, y) by {
        if cells(x, y) {
            let r = lemma_cell_in_block(cells, x, y);
            assert(rs.contains(r));
            let i = choose|i: int| 0 <= i < rs.len() && rs[i] == r;
            assert(rect_contains(rs[i], x, y));
        }
        if exists|i: int| 0 <= i < rs.len() && #[trigger] rect_contains(rs[i], x, y) {
            let i = choose|i: int| 0 <= i < rs.len() && #[trigger] rect_contains(rs[i], x, y);
            assert(is_block(cells, rs[i]));
            assert(is_run(cells, rs[i].start_x as int, rs[i].end_x as int, y));
        }
    }
    assert forall|i: int, j: int, x: int, y: int|
        0 <= i < rs.len() && 0 <= j < rs.len() && i != j && #[trigger] rect_contains(rs[i], x, y)
            implies !#[trigger] rect_contains(rs[j], x, y) by {
        if rect_contains(rs[j], x, y) {
            assert(is_block(cells, rs[i]));
            assert(is_block(cells, rs[j]));
            lemma_block_unique(cells, rs[i], rs[j], x, y);
            if i < j {
                assert(rect_precedes(rs[i], rs[j]));
            } else {
                assert(rect_precedes(rs[j], rs[i]));
            }
        }
    }
}

/// A cell set has one block list only: the reconstruction depends on the set
/// of cells alone, not on the order or repetition in which they were given.
pub proof fn lemma_block_list_unique(
    cells: spec_fn(int, int) -> bool,
    a: Seq<SquareRectangle>,
    b: Seq<SquareRectangle>,
)
    requires
        is_block_list(cells, a),
        is_block_list(cells, b),
    ensures
        a == b,
{
    assert forall|r: SquareRectangle| a.contains(r) <==> b.contains(r) by {
        if a.contains(r) {
            let p = choose|p: int| 0 <= p < a.len() && a[p] == r;
            assert(is_block(cells, a[p]));
        }
        if b.contains(r) {
            let p = choose|p: int| 0 <= p < b.len() && b[p] == r;
            assert(is_block(cells, b[p]));
        }
    }
    let precedes = |p: SquareRectangle, q: SquareRectangle| rect_precedes(p, q);
    assert(sorted_by(a, precedes));
    assert(sorted_by(b, precedes));
    lemma_sorted_unique(a, b, precedes);
}

/// No two rectangles of a block list can be merged into one: none continues
/// another downwards with the same columns, and none continues another to the
/// right over the same rows.
pub proof fn lemma_block_list_maximal(
    cells: spec_fn(int, int) -> bool,
    rs: Seq<SquareRectangle>,
    i: int,
    j: int,
)
    requires
        is_block_list(cells, rs),
        0 <= i < rs.len(),
        0 <= j < rs.len(),
    ensures
        !(rs[i].start_x == rs[j].start_x && rs[i].end_x == rs[j].end_x && rs[j].start_y == rs[i].end_y
            + 1),
        !(rs[i].start_y == rs[j].start_y && rs[i].end_y == rs[j].end_y && rs[j].start_x == rs[i].end_x
            + 1),
{
    let a = rs[i];
    let b = rs[j];
    assert(is_block(cells, a));
    assert(is_block(cells, b));
    if a.start_x == b.start_x && a.end_x == b.end_x && b.start_y == a.end_y + 1 {
        assert(is_run(cells, b.start_x as int, b.end_x as int, b.start_y as int));
    }
    if a.start_y == b.start_y && a.end_y == b.end_y && b.start_x == a.end_x + 1 {
        assert(is_run(cells, a.start_x as int, a.end_x as int, a.start_y as int));
        assert(is_run(cells, b.start_x as int, b.end_x as int, a.start_y as int));
        assert(cells(b.start_x as int, a.start_y as int));
    }
}

} // verus!
