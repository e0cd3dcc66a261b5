//! Merging the runs of consecutive rows into maximal rectangles.
use std::collections::{BTreeMap, BTreeSet};
use vstd::prelude::*;
use vstd::std_specs::iter::IteratorSpec;
use vstd::std_specs::cmp::OrdSpec;

use crate::blocks::{
    in_grid, is_block, is_block_list, is_run, lemma_block_list_tiles, lemma_stack_start_unique,
    rect_precedes, tiles, SquareRectangle,
};
use crate::runs::{contiguous_runs, maximal_intervals, strictly_increasing};

verus! {

broadcast use {vstd::std_specs::btree::group_btree_axioms, vstd::laws_cmp::group_laws_cmp};

/// The cells described by a row map: `(x, y)` is present when row `y` lists `x`.
pub open spec fn row_cells(rows: Map<u32, Vec<u32>>) -> spec_fn(int, int) -> bool {
    |x: int, y: int|
        0 <= x <= u32::MAX && 0 <= y <= u32::MAX && rows.contains_key(y as u32) && rows[y
            as u32]@.contains(x as u32)
}

/// `r` is the stack of its run that ends at row `y` and reaches as far up as the run does.
pub open spec fn stack_to(cells: spec_fn(int, int) -> bool, r: SquareRectangle, y: int) -> bool {
    &&& r.end_y == y
    &&& r.start_y <= y
    &&& forall|t: int|
        r.start_y <= t <= y ==> #[trigger] is_run(cells, r.start_x as int, r.end_x as int, t)
    &&& !is_run(cells, r.start_x as int, r.end_x as int, r.start_y - 1)
}

/// `a` holds, left to right, one stack ending at row `y` for every run of row `y`.
pub open spec fn stacks_cover(cells: spec_fn(int, int) -> bool, a: Seq<SquareRectangle>, y: int) -> bool {
    &&& forall|i: int| 0 <= i < a.len() ==> #[trigger] stack_to(cells, a[i], y)
    &&& forall|i: int, j: int| 0 <= i < j < a.len() ==> a[i].start_x < a[j].start_x
    &&& forall|sx: int, ex: int|
        #[trigger] is_run(cells, sx, ex, y) ==> exists|i: int|
            0 <= i < a.len() && a[i].start_x == sx && a[i].end_x == ex
}

/// `out` lists, in emission order, exactly the blocks that end above row `y`.
pub open spec fn emitted_before(cells: spec_fn(int, int) -> bool, out: Seq<SquareRectangle>, y: int) -> bool {
    &&& forall|i: int| 0 <= i < out.len() ==> #[trigger] is_block(cells, out[i]) && out[i].end_y < y
    &&& forall|i: int, j: int| 0 <= i < j < out.len() ==> #[trigger] rect_precedes(out[i], out[j])
    &&& forall|r: SquareRectangle| #[trigger] is_block(cells, r) && r.end_y < y ==> out.contains(r)
}

/// Row `y` has no run.
pub open spec fn no_runs(cells: spec_fn(int, int) -> bool, y: int) -> bool {
    forall|sx: int, ex: int| !#[trigger] is_run(cells, sx, ex, y)
}

proof fn lemma_row_cells_in_grid(rows: Map<u32, Vec<u32>>)
    ensures
        in_grid(row_cells(rows)),
{
}

proof fn lemma_no_runs_without_row(rows: Map<u32, Vec<u32>>, y: int)
    requires
        !(0 <= y <= u32::MAX && rows.contains_key(y as u32)),
    ensures
        no_runs(row_cells(rows), y),
{
    assert forall|sx: int, ex: int| !#[trigger] is_run(row_cells(rows), sx, ex, y) by {
        if is_run(row_cells(rows), sx, ex, y) {
            assert(row_cells(rows)(sx, y));
        }
    }
}

/// The maximal intervals of a row's values are the runs of that row.
proof fn lemma_row_runs(rows: Map<u32, Vec<u32>>, y: u32, s: Seq<u32>, r: Seq<(u32, u32)>)
    requires
        rows.contains_key(y),
        forall|v: u32| #[trigger] s.contains(v) <==> rows[y]@.contains(v),
        maximal_intervals(s, r),
    ensures
        forall|k: int| 0 <= k < r.len() ==> #[trigger] is_run(row_cells(rows), r[k].0 as int, r[k].1 as int, y as int),
        forall|sx: int, ex: int|
            #[trigger] is_run(row_cells(rows), sx, ex, y as int) ==> exists|k: int|
                0 <= k < r.len() && r[k].0 == sx && r[k].1 == ex,
        forall|k: int, l: int| 0 <= k < l < r.len() ==> r[k].1 + 1 < r[l].0,
{
    let c = row_cells(rows);
    assert forall|k: int| 0 <= k < r.len() implies #[trigger] is_run(c, r[k].0 as int, r[k].1 as int, y as int) by {
        assert(r[k].0 <= r[k].1);
        assert forall|x: int| r[k].0 <= x <= r[k].1 implies #[trigger] c(x, y as int) by {
            let xv = x as u32;
            assert(s.contains(xv));
        }
        if r[k].0 > 0 {
            assert(!s.contains((r[k].0 - 1) as u32));
        }
        if r[k].1 < u32::MAX {
            assert(!s.contains((r[k].1 + 1) as u32));
        }
    }
    assert forall|sx: int, ex: int|
        #[trigger] is_run(c, sx, ex, y as int) implies exists|k: int|
            0 <= k < r.len() && r[k].0 == sx && r[k].1 == ex by {
        assert(c(sx, y as int));
        let xv = sx as u32;
        assert(s.contains(xv));
        let k = choose|k: int| 0 <= k < r.len() && #[trigger] r[k].0 <= xv <= r[k].1;
        assert(is_run(c, r[k].0 as int, r[k].1 as int, y as int));
        crate::blocks::lemma_run_unique(c, sx, ex, r[k].0 as int, r[k].1 as int, y as int, sx);
    }
}

/// The row before the first one, `-1`, or the last row merged.
pub open spec fn previous_int(previous_y: Option<u32>) -> int {
    match previous_y {
        Some(p) => p as int,
        None => -1,
    }
}

/// Closing all stacks of row `p` when no later row up to `z` holds a run.
proof fn lemma_flush(
    cells: spec_fn(int, int) -> bool,
    out: Seq<SquareRectangle>,
    a: Seq<SquareRectangle>,
    p: int,
    z: int,
)
    requires
        p < z,
        emitted_before(cells, out, p),
        stacks_cover(cells, a, p),
        forall|q: int| p < q < z ==> no_runs(cells, q),
        no_runs(cells, p + 1),
    ensures
        emitted_before(cells, out + a, z),
{
    let o = out + a;
    assert forall|i: int| 0 <= i < o.len() implies #[trigger] is_block(cells, o[i]) && o[i].end_y < z by {
        if i < out.len() {
            assert(o[i] == out[i]);
            assert(is_block(cells, out[i]));
        } else {
            let r = a[i - out.len()];
            assert(stack_to(cells, r, p));
            assert(o[i] == r);
            assert(!is_run(cells, r.start_x as int, r.end_x as int, p + 1));
        }
    }
    assert forall|i: int, j: int| 0 <= i < j < o.len() implies #[trigger] rect_precedes(o[i], o[j]) by {
        if j >= out.len() && i < out.len() {
            assert(o[i] == out[i]);
            assert(is_block(cells, out[i]));
            assert(out[i].end_y < p);
            assert(stack_to(cells, a[j - out.len()], p));
        } else if i >= out.len() {
            assert(stack_to(cells, a[i - out.len()], p));
            assert(stack_to(cells, a[j - out.len()], p));
        }
    }
    assert forall|r: SquareRectangle| #[trigger] is_block(cells, r) && r.end_y < z implies o.contains(r) by {
        if r.end_y < p {
            let i = choose|i: int| 0 <= i < out.len() && out[i] == r;
            assert(o[i] == r);
        } else if r.end_y == p {
            assert(is_run(cells, r.start_x as int, r.end_x as int, p));
            let i = choose|i: int| 0 <= i < a.len() && a[i].start_x == r.start_x && a[i].end_x == r.end_x;
            assert(stack_to(cells, a[i], p));
            lemma_stack_start_unique(cells, r.start_x as int, r.end_x as int, r.start_y as int, a[i].start_y as int, p);
            assert(a[i] == r);
            assert(o[out.len() + i] == r);
        } else {
            assert(no_runs(cells, r.end_y as int));
            assert(is_run(cells, r.start_x as int, r.end_x as int, r.end_y as int));
        }
    }
}

proof fn lemma_key_order(kvs: Seq<(&u32, &Vec<u32>)>, i: int, j: int)
    requires
        vstd::std_specs::btree::increasing_seq(kvs.map_values(|kv: (&u32, &Vec<u32>)| *kv.0)),
        0 <= i < j < kvs.len(),
    ensures
        *kvs[i].0 < *kvs[j].0,
{
    let keys = kvs.map_values(|kv: (&u32, &Vec<u32>)| *kv.0);
    assert(keys[i].cmp_spec(&keys[j]) is Less);
}

proof fn lemma_increasing_u32(s: Seq<&u32>)
    requires
        vstd::std_specs::btree::increasing_seq(s),
    ensures
        forall|a: int, b: int| 0 <= a < b < s.len() ==> *s[a] < *s[b],
{
    assert(vstd::laws_cmp::obeys_cmp::<u32>());
    assert(vstd::laws_cmp::obeys_cmp::<&u32>());
    assert forall|a: int, b: int| 0 <= a < b < s.len() implies *s[a] < *s[b] by {
        assert(OrdSpec::cmp_spec(&s[a], &s[b]) is Less);
    }
}

/// Continues the stacks `active`, which end at row `y - 1`, with the runs of
/// row `y`: returns the stacks that end at row `y` and, left to right, the
/// blocks that end at row `y - 1`.
fn advance_row(
    active: &Vec<SquareRectangle>,
    runs: &Vec<(u32, u32)>,
    y: u32,
    Ghost(cells): Ghost<spec_fn(int, int) -> bool>,
) -> (result: (Vec<SquareRectangle>, Vec<SquareRectangle>))
    requires
        in_grid(cells),
        stacks_cover(cells, active@, y - 1),
        forall|k: int| 0 <= k < runs@.len() ==> #[trigger] is_run(cells, runs@[k].0 as int, runs@[k].1 as int, y as int),
        forall|sx: int, ex: int|
            #[trigger] is_run(cells, sx, ex, y as int) ==> exists|k: int|
                0 <= k < runs@.len() && runs@[k].0 == sx && runs@[k].1 == ex,
        forall|k: int, l: int| 0 <= k < l < runs@.len() ==> runs@[k].1 + 1 < runs@[l].0,
    ensures
        stacks_cover(cells, result.0@, y as int),
        forall|i: int| 0 <= i < result.1@.len() ==> #[trigger] is_block(cells, result.1@[i]) && result.1@[i].end_y == y - 1,
        forall|i: int, j: int| 0 <= i < j < result.1@.len() ==> result.1@[i].start_x < result.1@[j].start_x,
        forall|r: SquareRectangle| #[trigger] is_block(cells, r) && r.end_y == y - 1 ==> result.1@.contains(r),
{
    let mut next: Vec<SquareRectangle> = Vec::new();
    let mut finished: Vec<SquareRectangle> = Vec::new();
    let mut j: usize = 0;
    let mut i: usize = 0;
    while i < runs.len()
        invariant
            in_grid(cells),
            stacks_cover(cells, active@, y - 1),
            forall|k: int| 0 <= k < runs@.len() ==> #[trigger] is_run(cells, runs@[k].0 as int, runs@[k].1 as int, y as int),
            forall|sx: int, ex: int|
                #[trigger] is_run(cells, sx, ex, y as int) ==> exists|k: int|
                    0 <= k < runs@.len() && runs@[k].0 == sx && runs@[k].1 == ex,
            forall|k: int, l: int| 0 <= k < l < runs@.len() ==> runs@[k].1 + 1 < runs@[l].0,
            j <= active@.len(),
            i <= runs@.len(),
            next@.len() == i,
            forall|m: int| 0 <= m < i ==> #[trigger] stack_to(cells, next@[m], y as int) && next@[m].start_x
                == runs@[m].0 && next@[m].end_x == runs@[m].1,
            i < runs@.len() ==> forall|t: int| 0 <= t < j ==> active@[t].start_x < runs@[i as int].0,
            forall|t: int, m: int|
                j <= t < active@.len() && 0 <= m < i ==> !(active@[t].start_x == runs@[m].0
                    && active@[t].end_x == runs@[m].1),
            forall|f: int| 0 <= f < finished@.len() ==> #[trigger] is_block(cells, finished@[f]) && finished@[f].end_y == y - 1,
            forall|f: int, g: int| 0 <= f < g < finished@.len() ==> finished@[f].start_x < finished@[g].start_x,
            forall|f: int, t: int|
                0 <= f < finished@.len() && j <= t < active@.len() ==> finished@[f].start_x
                    < active@[t].start_x,
            forall|t: int|
                0 <= t < j && !is_run(cells, active@[t].start_x as int, active@[t].end_x as int, y as int)
                    ==> finished@.contains(#[trigger] active@[t]),
        decreases runs@.len() - i,
    {
        let (sx, ex) = runs[i];
        while j < active.len() && active[j].start_x < sx
            invariant
                in_grid(cells),
                stacks_cover(cells, active@, y - 1),
                forall|k: int| 0 <= k < runs@.len() ==> #[trigger] is_run(cells, runs@[k].0 as int, runs@[k].1 as int, y as int),
                forall|sx2: int, ex2: int|
                    #[trigger] is_run(cells, sx2, ex2, y as int) ==> exists|k: int|
                        0 <= k < runs@.len() && runs@[k].0 == sx2 && runs@[k].1 == ex2,
                forall|k: int, l: int| 0 <= k < l < runs@.len() ==> runs@[k].1 + 1 < runs@[l].0,
                i < runs@.len(),
                sx == runs@[i as int].0,
                ex == runs@[i as int].1,
                j <= active@.len(),
                forall|t: int| 0 <= t < j ==> active@[t].start_x < sx,
                forall|t: int, m: int|
                    j <= t < active@.len() && 0 <= m < i ==> !(active@[t].start_x == runs@[m].0
                        && active@[t].end_x == runs@[m].1),
                forall|f: int| 0 <= f < finished@.len() ==> #[trigger] is_block(cells, finished@[f]) && finished@[f].end_y == y - 1,
                forall|f: int, g: int| 0 <= f < g < finished@.len() ==> finished@[f].start_x < finished@[g].start_x,
                forall|f: int, t: int|
                    0 <= f < finished@.len() && j <= t < active@.len() ==> finished@[f].start_x
                        < active@[t].start_x,
                forall|t: int|
                    0 <= t < j && !is_run(cells, active@[t].start_x as int, active@[t].end_x as int, y as int)
                        ==> finished@.contains(#[trigger] active@[t]),
            decreases active@.len() - j,
        {
            let a = active[j];
            proof {
                assert(stack_to(cells, a, y - 1));
                if is_run(cells, a.start_x as int, a.end_x as int, y as int) {
                    let k = choose|k: int| 0 <= k < runs@.len() && runs@[k].0 == a.start_x && runs@[k].1 == a.end_x;
                    if k > i {
                        assert(runs@[i as int].1 + 1 < runs@[k].0);
                        assert(runs@[i as int].0 <= runs@[i as int].1) by {
                            assert(is_run(cells, runs@[i as int].0 as int, runs@[i as int].1 as int, y as int));
                        }
                    }
                    assert(false);
                }
                assert(is_block(cells, a));
            }
            let ghost old_fin = finished@;
            finished.push(a);
            j += 1;
            proof {
                assert forall|t: int|
                    0 <= t < j && !is_run(cells, active@[t].start_x as int, active@[t].end_x as int, y as int)
                        implies finished@.contains(#[trigger] active@[t]) by {
                    if t == j - 1 {
                        assert(finished@[finished@.len() - 1] == active@[t]);
                    } else {
                        assert(old_fin.contains(active@[t]));
                        let f = choose|f: int| 0 <= f < old_fin.len() && old_fin[f] == active@[t];
                        assert(finished@[f] == active@[t]);
                    }
                }
                assert forall|f: int, t: int|
                    0 <= f < finished@.len() && j <= t < active@.len() implies finished@[f].start_x
                        < active@[t].start_x by {
                    assert(active@[j - 1].start_x < active@[t].start_x);
                }
            }
        }
        if j < active.len() && active[j].start_x == sx && active[j].end_x == ex {
            let a = active[j];
            proof {
                assert(stack_to(cells, a, y - 1));
                assert(is_run(cells, sx as int, ex as int, y as int));
            }
            let r = SquareRectangle { start_x: sx, end_x: ex, start_y: a.start_y, end_y: y };
            proof {
                assert forall|t: int| r.start_y <= t <= y implies #[trigger] is_run(cells, r.start_x as int, r.end_x as int, t) by {
                    if t < y {
                        assert(is_run(cells, a.start_x as int, a.end_x as int, t));
                    }
                }
                assert(stack_to(cells, r, y as int));
            }
            next.push(r);
            j += 1;
            proof {
                assert forall|t: int|
                    0 <= t < j && !is_run(cells, active@[t].start_x as int, active@[t].end_x as int, y as int)
                        implies finished@.contains(#[trigger] active@[t]) by {
                    if t == j - 1 {
                        assert(is_run(cells, sx as int, ex as int, y as int));
                    }
                }
                assert forall|f: int, t: int|
                    0 <= f < finished@.len() && j <= t < active@.len() implies finished@[f].start_x
                        < active@[t].start_x by {
                    assert(active@[j - 1].start_x < active@[t].start_x);
                }
            }
        } else {
            let r = SquareRectangle { start_x: sx, end_x: ex, start_y: y, end_y: y };
            proof {
                assert(is_run(cells, sx as int, ex as int, y as int));
                if is_run(cells, sx as int, ex as int, y - 1) {
                    let t = choose|t: int| 0 <= t < active@.len() && active@[t].start_x == sx && active@[t].end_x == ex;
                    if t < j {
                        assert(active@[t].start_x < sx);
                    } else if t > j {
                        assert(active@[j as int].start_x < active@[t].start_x);
                    }
                    assert(false);
                }
                assert forall|t: int| r.start_y <= t <= y implies #[trigger] is_run(cells, r.start_x as int, r.end_x as int, t) by {
                }
                assert(stack_to(cells, r, y as int));
            }
            next.push(r);
        }
        i += 1;
        proof {
            assert forall|m: int| 0 <= m < i implies #[trigger] stack_to(cells, next@[m], y as int) && next@[m].start_x
                == runs@[m].0 && next@[m].end_x == runs@[m].1 by {
            }
            if i < runs@.len() {
                assert(runs@[i - 1].1 + 1 < runs@[i as int].0);
                assert(runs@[i - 1].0 <= runs@[i - 1].1) by {
                    assert(is_run(cells, runs@[i - 1].0 as int, runs@[i - 1].1 as int, y as int));
                }
                assert forall|t: int| 0 <= t < j implies active@[t].start_x < runs@[i as int].0 by {
                }
            }
            assert forall|t: int, m: int|
                j <= t < active@.len() && 0 <= m < i implies !(active@[t].start_x == runs@[m].0
                    && active@[t].end_x == runs@[m].1) by {
                if m == i - 1 && active@[t].start_x == runs@[m].0 && active@[t].end_x == runs@[m].1 {
                    if j > 0 && t > j - 1 {
                        assert(active@[(j - 1) as int].start_x < active@[t].start_x);
                    }
                }
            }
        }
    }
    while j < active.len()
        invariant
            in_grid(cells),
            stacks_cover(cells, active@, y - 1),
            forall|sx2: int, ex2: int|
                #[trigger] is_run(cells, sx2, ex2, y as int) ==> exists|k: int|
                    0 <= k < runs@.len() && runs@[k].0 == sx2 && runs@[k].1 == ex2,
            j <= active@.len(),
            forall|t: int, m: int|
                j <= t < active@.len() && 0 <= m < runs@.len() ==> !(active@[t].start_x == runs@[m].0
                    && active@[t].end_x == runs@[m].1),
            forall|f: int| 0 <= f < finished@.len() ==> #[trigger] is_block(cells, finished@[f]) && finished@[f].end_y == y - 1,
            forall|f: int, g: int| 0 <= f < g < finished@.len() ==> finished@[f].start_x < finished@[g].start_x,
            forall|f: int, t: int|
                0 <= f < finished@.len() && j <= t < active@.len() ==> finished@[f].start_x
                    < active@[t].start_x,
            forall|t: int|
                0 <= t < j && !is_run(cells, active@[t].start_x as int, active@[t].end_x as int, y as int)
                    ==> finished@.contains(#[trigger] active@[t]),
        decreases active@.len() - j,
    {
        let a = active[j];
        proof {
            assert(stack_to(cells, a, y - 1));
            if is_run(cells, a.start_x as int, a.end_x as int, y as int) {
                let k = choose|k: int| 0 <= k < runs@.len() && runs@[k].0 == a.start_x && runs@[k].1 == a.end_x;
                assert(false);
            }
            assert(is_block(cells, a));
        }
        let ghost old_fin = finished@;
        finished.push(a);
        j += 1;
        proof {
            assert forall|t: int|
                0 <= t < j && !is_run(cells, active@[t].start_x as int, active@[t].end_x as int, y as int)
                    implies finished@.contains(#[trigger] active@[t]) by {
                if t == j - 1 {
                    assert(finished@[finished@.len() - 1] == active@[t]);
                } else {
                    assert(old_fin.contains(active@[t]));
                    let f = choose|f: int| 0 <= f < old_fin.len() && old_fin[f] == active@[t];
                    assert(finished@[f] == active@[t]);
                }
            }
            assert forall|f: int, t: int|
                0 <= f < finished@.len() && j <= t < active@.len() implies finished@[f].start_x
                    < active@[t].start_x by {
                assert(active@[j - 1].start_x < active@[t].start_x);
            }
        }
    }
    proof {
        assert forall|r: SquareRectangle| #[trigger] is_block(cells, r) && r.end_y == y - 1 implies finished@.contains(r) by {
            assert(is_run(cells, r.start_x as int, r.end_x as int, y - 1));
            let t = choose|t: int| 0 <= t < active@.len() && active@[t].start_x == r.start_x && active@[t].end_x == r.end_x;
            assert(stack_to(cells, active@[t], y - 1));
            lemma_stack_start_unique(cells, r.start_x as int, r.end_x as int, r.start_y as int, active@[t].start_y as int, y - 1);
            assert(active@[t] == r);
            assert(!is_run(cells, r.start_x as int, r.end_x as int, y as int));
        }
        assert forall|sx: int, ex: int|
            #[trigger] is_run(cells, sx, ex, y as int) implies exists|i: int|
                0 <= i < next@.len() && next@[i].start_x == sx && next@[i].end_x == ex by {
            let k = choose|k: int| 0 <= k < runs@.len() && runs@[k].0 == sx && runs@[k].1 == ex;
            assert(stack_to(cells, next@[k], y as int));
        }
        assert forall|a: int, b: int| 0 <= a < b < next@.len() implies next@[a].start_x < next@[b].start_x by {
            assert(stack_to(cells, next@[a], y as int));
            assert(stack_to(cells, next@[b], y as int));
            assert(runs@[a].1 + 1 < runs@[b].0);
            assert(is_run(cells, runs@[a].0 as int, runs@[a].1 as int, y as int));
        }
    }
    (next, finished)
}

/// Appending the blocks that end at row `y - 1` to the blocks that end above it.
proof fn lemma_append_finished(
    cells: spec_fn(int, int) -> bool,
    out: Seq<SquareRectangle>,
    finished: Seq<SquareRectangle>,
    y: int,
)
    requires
        emitted_before(cells, out, y - 1),
        forall|i: int| 0 <= i < finished.len() ==> #[trigger] is_block(cells, finished[i]) && finished[i].end_y == y - 1,
        forall|i: int, j: int| 0 <= i < j < finished.len() ==> finished[i].start_x < finished[j].start_x,
        forall|r: SquareRectangle| #[trigger] is_block(cells, r) && r.end_y == y - 1 ==> finished.contains(r),
    ensures
        emitted_before(cells, out + finished, y),
{
    let o = out + finished;
    assert forall|i: int| 0 <= i < o.len() implies #[trigger] is_block(cells, o[i]) && o[i].end_y < y by {
        if i < out.len() {
            assert(o[i] == out[i]);
            assert(is_block(cells, out[i]));
        } else {
            assert(o[i] == finished[i - out.len()]);
            assert(is_block(cells, finished[i - out.len()]));
        }
    }
    assert forall|i: int, j: int| 0 <= i < j < o.len() implies #[trigger] rect_precedes(o[i], o[j]) by {
        if j < out.len() {
            assert(o[i] == out[i] && o[j] == out[j]);
        } else if i < out.len() {
            assert(o[i] == out[i]);
            assert(is_block(cells, out[i]));
            assert(is_block(cells, finished[j - out.len()]));
        } else {
            assert(is_block(cells, finished[i - out.len()]));
            assert(is_block(cells, finished[j - out.len()]));
        }
    }
    assert forall|r: SquareRectangle| #[trigger] is_block(cells, r) && r.end_y < y implies o.contains(r) by {
        if r.end_y < y - 1 {
            let i = choose|i: int| 0 <= i < out.len() && out[i] == r;
            assert(o[i] == r);
        } else {
            let i = choose|i: int| 0 <= i < finished.len() && finished[i] == r;
            assert(o[out.len() + i] == r);
        }
    }
}

/// The row keys seen through the iterator: strictly increasing, each with its
/// row, and every row among them.
pub open spec fn row_sequence(rows: Map<u32, Vec<u32>>, kvs: Seq<(&u32, &Vec<u32>)>) -> bool {
    &&& forall|i: int, j: int| 0 <= i < j < kvs.len() ==> *kvs[i].0 < *kvs[j].0
    &&& forall|i: int| 0 <= i < kvs.len() ==> rows.contains_key(*#[trigger] kvs[i].0) && rows[*kvs[i].0] == *kvs[i].1
    &&& forall|y: u32| #[trigger] rows.contains_key(y) ==> exists|i: int| 0 <= i < kvs.len() && *kvs[i].0 == y
}

/// Rows strictly between the `k - 1`-th and the `k`-th key hold no run.
proof fn lemma_gap_rows_empty(rows: Map<u32, Vec<u32>>, kvs: Seq<(&u32, &Vec<u32>)>, k: int, q: int)
    requires
        row_sequence(rows, kvs),
        0 <= k <= kvs.len(),
        k > 0 ==> *kvs[k - 1].0 < q,
        k < kvs.len() ==> q < *kvs[k].0,
    ensures
        no_runs(row_cells(rows), q),
{
    if 0 <= q <= u32::MAX && rows.contains_key(q as u32) {
        let i = choose|i: int| 0 <= i < kvs.len() && *kvs[i].0 == q as u32;
        if i < k {
            if i < k - 1 {
                assert(*kvs[i].0 < *kvs[k - 1].0);
            }
        } else if i > k {
            assert(*kvs[k].0 < *kvs[i].0);
        }
    }
    lemma_no_runs_without_row(rows, q);
}

/// Sorted, duplicate-free copy of `xs`.
fn sorted_unique(xs: &Vec<u32>) -> (out: Vec<u32>)
    ensures
        strictly_increasing(out@),
        forall|v: u32| #[trigger] out@.contains(v) <==> xs@.contains(v),
{
    let mut set: BTreeSet<u32> = BTreeSet::new();
    let mut i: usize = 0;
    while i < xs.len()
        invariant
            i <= xs@.len(),
            set@ =~= xs@.take(i as int).to_set(),
        decreases xs@.len() - i,
    {
        let ghost before = xs@.take(i as int);
        set.insert(xs[i]);
        proof {
            assert(xs@.take(i + 1) =~= before.push(xs@[i as int]));
            before.lemma_push_to_set_commute(xs@[i as int]);
        }
        i += 1;
    }
    assert(xs@.take(xs@.len() as int) =~= xs@);
    let mut out: Vec<u32> = Vec::new();
    let iter = set.iter();
    let ghost items = iter.remaining();
    for v in it: iter
        invariant
            items == iter.remaining(),
            it.seq() == items,
            out@.len() == it.index(),
            forall|k: int| 0 <= k < out@.len() ==> out@[k] == *it.seq()[k],
    {
        out.push(*v);
    }
    proof {
        assert(out@ =~= items.unref());
        lemma_increasing_u32(items);
        assert(items.unref().to_set() == set@);
        assert forall|v: u32| #[trigger] out@.contains(v) <==> xs@.contains(v) by {
            assert(out@.to_set().contains(v) <==> out@.contains(v));
            assert(xs@.to_set().contains(v) <==> xs@.contains(v));
        }
    }
    out
}

/// Merges the runs of adjacent rows into maximal rectangles.
///
/// Each row's columns are sorted and stripped of repetitions first. The result
/// holds every maximal vertical stack of one and the same run exactly once,
/// ordered by the row where the stack ends and then by its first column; the
/// rectangles cover exactly the cells of `rows`, each cell once.
pub fn merge_square_runs(rows: BTreeMap<u32, Vec<u32>>) -> (rectangles: Vec<SquareRectangle>)
    ensures
        is_block_list(row_cells(rows@), rectangles@),
        tiles(row_cells(rows@), rectangles@),
{
    let ghost cells = row_cells(rows@);
    proof {
        lemma_row_cells_in_grid(rows@);
    }
    let mut active: Vec<SquareRectangle> = Vec::new();
    let mut rectangles: Vec<SquareRectangle> = Vec::new();
    let mut previous_y: Option<u32> = None;
    let iter = rows.iter();
    let ghost kvs = iter.remaining();
    proof {
        assert forall|i: int, j: int| 0 <= i < j < kvs.len() implies *kvs[i].0 < *kvs[j].0 by {
            lemma_key_order(kvs, i, j);
        }
        assert forall|y: u32| #[trigger] rows@.contains_key(y) implies exists|i: int|
            0 <= i < kvs.len() && *kvs[i].0 == y by {
            assert(kvs.contains((&y, &rows@[y])));
            let i = choose|i: int| 0 <= i < kvs.len() && kvs[i] == (&y, &rows@[y]);
            assert(*kvs[i].0 == y);
        }
        assert(row_sequence(rows@, kvs));
        assert(no_runs(cells, -1)) by {
            lemma_no_runs_without_row(rows@, -1);
        }
    }
    for kv in it: iter
        invariant
            kvs == iter.remaining(),
            it.seq() == kvs,
            cells == row_cells(rows@),
            in_grid(cells),
            row_sequence(rows@, kvs),
            it.index() == 0 ==> previous_y is None,
            it.index() > 0 ==> previous_y == Some(*kvs[it.index() - 1].0),
            emitted_before(cells, rectangles@, previous_int(previous_y)),
            stacks_cover(cells, active@, previous_int(previous_y)),
    {
        let y = *kv.0;
        let ghost k = it.index();
        let xs = sorted_unique(kv.1);
        proof {
            assert(kvs[k] == kv);
            assert forall|i: int| 0 <= i < xs@.len() - 1 implies xs@[i] < u32::MAX by {
                assert(xs@[i] < xs@[i + 1]);
            }
        }
        let runs = contiguous_runs(xs.as_slice());
        proof {
            lemma_row_runs(rows@, y, xs@, runs@);
        }
        let gap = match previous_y {
            Some(p) => y != p + 1,
            None => false,
        };
        proof {
            if k > 0 {
                assert(*kvs[k - 1].0 < *kvs[k].0);
            }
        }
        if gap {
            proof {
                let p = previous_int(previous_y);
                assert forall|q: int| p < q < y - 1 implies no_runs(cells, q) by {
                    lemma_gap_rows_empty(rows@, kvs, k, q);
                }
                lemma_gap_rows_empty(rows@, kvs, k, p + 1);
                lemma_flush(cells, rectangles@, active@, p, y - 1);
            }
            rectangles.append(&mut active);
        }
        proof {
            if gap || previous_y is None {
                lemma_gap_rows_empty(rows@, kvs, k, y - 1);
            }
            if previous_y is None {
                if active@.len() > 0 {
                    assert(stack_to(cells, active@[0], -1));
                }
                if rectangles@.len() > 0 {
                    assert(is_block(cells, rectangles@[0]) && rectangles@[0].end_y < -1);
                }
            }
            if previous_y is None && y > 0 {
                assert forall|q: int| -1 < q < y - 1 implies no_runs(cells, q) by {
                    lemma_gap_rows_empty(rows@, kvs, k, q);
                }
                lemma_gap_rows_empty(rows@, kvs, k, 0);
                lemma_flush(cells, rectangles@, active@, -1, y - 1);
                assert(rectangles@ + active@ =~= rectangles@);
            }
            assert(emitted_before(cells, rectangles@, y - 1));
            assert(stacks_cover(cells, active@, y - 1));
        }
        let (next, mut finished) = advance_row(&active, &runs, y, Ghost(cells));
        proof {
            lemma_append_finished(cells, rectangles@, finished@, y as int);
        }
        rectangles.append(&mut finished);
        active = next;
        previous_y = Some(y);
    }
    proof {
        let p = previous_int(previous_y);
        let n = kvs.len() as int;
        assert forall|q: int| p < q < u32::MAX + 1 implies no_runs(cells, q) by {
            lemma_gap_rows_empty(rows@, kvs, n, q);
        }
        lemma_gap_rows_empty(rows@, kvs, n, p + 1);
        lemma_flush(cells, rectangles@, active@, p, u32::MAX + 1);
    }
    rectangles.append(&mut active);
    proof {
        assert(is_block_list(cells, rectangles@));
        lemma_block_list_tiles(cells, rectangles@);
    }
    rectangles
}

} // verus!
