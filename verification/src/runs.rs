//! Horizontal runs of a row and their merge into maximal rectangles.
use vstd::prelude::*;

verus! {

/// The runs of consecutive values of `s`, in the order in which they occur: a
/// value that is one more than its predecessor extends the current run, any
/// other value starts a new one.
pub open spec fn consecutive_runs(s: Seq<u32>) -> Seq<(u32, u32)>
    decreases s.len(),
{
    if s.len() == 0 {
        Seq::empty()
    } else {
        let prev = consecutive_runs(s.drop_last());
        let x = s.last();
        if prev.len() > 0 && x == prev.last().1 + 1 {
            prev.update(prev.len() - 1, (prev.last().0, x))
        } else {
            prev.push((x, x))
        }
    }
}

/// `s` is strictly increasing.
pub open spec fn strictly_increasing(s: Seq<u32>) -> bool {
    forall|i: int, j: int| 0 <= i < j < s.len() ==> s[i] < s[j]
}

/// `r` lists the maximal intervals of the values of `s`, left to right, with a
/// gap of at least one value between neighbours.
pub open spec fn maximal_intervals(s: Seq<u32>, r: Seq<(u32, u32)>) -> bool {
    &&& forall|k: int| 0 <= k < r.len() ==> #[trigger] r[k].0 <= r[k].1
    &&& forall|k: int, x: u32|
        #![trigger r[k], s.contains(x)]
        0 <= k < r.len() && r[k].0 <= x <= r[k].1 ==> s.contains(x)
    &&& forall|k: int| 0 <= k < r.len() ==> !s.contains((#[trigger] r[k].0 - 1) as u32) || r[k].0 == 0
    &&& forall|k: int| 0 <= k < r.len() ==> !s.contains((#[trigger] r[k].1 + 1) as u32) || r[k].1 == u32::MAX
    &&& forall|k: int, l: int| 0 <= k < l < r.len() ==> #[trigger] r[k].1 + 1 < #[trigger] r[l].0
    &&& forall|x: u32| #[trigger] s.contains(x) ==> exists|k: int|
        0 <= k < r.len() && #[trigger] r[k].0 <= x <= r[k].1
}

proof fn lemma_consecutive_runs_last(s: Seq<u32>)
    requires
        s.len() > 0,
    ensures
        consecutive_runs(s).len() > 0,
        consecutive_runs(s).last().1 == s.last(),
    decreases s.len(),
{
    if s.len() > 1 {
        lemma_consecutive_runs_last(s.drop_last());
    }
}

/// For strictly increasing input, the runs are the maximal intervals of its values.
pub proof fn lemma_consecutive_runs_increasing(s: Seq<u32>)
    requires
        strictly_increasing(s),
    ensures
        maximal_intervals(s, consecutive_runs(s)),
    decreases s.len(),
{
    let r = consecutive_runs(s);
    if s.len() == 0 {
        return;
    }
    let t = s.drop_last();
    let l = s.last();
    assert(strictly_increasing(t));
    lemma_consecutive_runs_increasing(t);
    let p = consecutive_runs(t);
    assert forall|v: u32| #[trigger] t.contains(v) implies v < l by {
        let i = choose|i: int| 0 <= i < t.len() && t[i] == v;
        assert(s[i] < s[s.len() - 1]);
    }
    assert forall|v: u32| #[trigger] s.contains(v) implies t.contains(v) || v == l by {
        let i = choose|i: int| 0 <= i < s.len() && s[i] == v;
        if i < s.len() - 1 {
            assert(t[i] == v);
        }
    }
    assert forall|v: u32| t.contains(v) implies #[trigger] s.contains(v) by {
        let i = choose|i: int| 0 <= i < t.len() && t[i] == v;
        assert(s[i] == v);
    }
    assert(s.contains(l)) by {
        assert(s[s.len() - 1] == l);
    }
    if t.len() > 0 {
        lemma_consecutive_runs_last(t);
        assert(t.contains(t.last()));
    }
    if p.len() > 0 && l == p.last().1 + 1 {
        let a0 = p.last().0;
        assert(r == p.update(p.len() - 1, (a0, l)));
        assert forall|k: int, x: u32|
            #![trigger r[k], s.contains(x)]
            0 <= k < r.len() && r[k].0 <= x <= r[k].1 implies s.contains(x) by {
            if k < r.len() - 1 {
                assert(r[k] == p[k]);
                assert(p[k].0 <= x <= p[k].1);
                assert(t.contains(x));
            } else if x < l {
                assert(p[k].0 <= x <= p[k].1);
                assert(t.contains(x));
            }
        }
        assert forall|k: int| 0 <= k < r.len() implies !s.contains((#[trigger] r[k].0 - 1) as u32)
            || r[k].0 == 0 by {
            assert(r[k].0 == p[k].0);
            if r[k].0 > 0 && s.contains((r[k].0 - 1) as u32) {
                assert(p[k].0 <= p[k].1);
                assert(t.contains((r[k].0 - 1) as u32));
            }
        }
        assert forall|k: int| 0 <= k < r.len() implies !s.contains((#[trigger] r[k].1 + 1) as u32)
            || r[k].1 == u32::MAX by {
            if k < r.len() - 1 {
                assert(r[k] == p[k]);
                assert(p[k].1 + 1 < p[p.len() - 1].0);
                if r[k].1 < u32::MAX && s.contains((r[k].1 + 1) as u32) {
                    assert(p[p.len() - 1].0 <= p[p.len() - 1].1);
                    assert(t.contains((r[k].1 + 1) as u32));
                }
            } else {
                if r[k].1 < u32::MAX && s.contains((r[k].1 + 1) as u32) {
                    assert(t.contains((l + 1) as u32));
                }
            }
        }
        assert forall|k: int, m: int| 0 <= k < m < r.len() implies #[trigger] r[k].1 + 1
            < #[trigger] r[m].0 by {
            assert(p[k].1 + 1 < p[m].0);
        }
        assert forall|x: u32| #[trigger] s.contains(x) implies exists|k: int|
            0 <= k < r.len() && #[trigger] r[k].0 <= x <= r[k].1 by {
            if x == l {
                assert(r[r.len() - 1].0 <= x <= r[r.len() - 1].1);
            } else {
                assert(t.contains(x));
                let k = choose|k: int| 0 <= k < p.len() && #[trigger] p[k].0 <= x <= p[k].1;
                assert(r[k].0 <= x <= r[k].1);
            }
        }
    } else {
        assert(r == p.push((l, l)));
        assert forall|k: int, x: u32|
            #![trigger r[k], s.contains(x)]
            0 <= k < r.len() && r[k].0 <= x <= r[k].1 implies s.contains(x) by {
            if k < r.len() - 1 {
                assert(r[k] == p[k]);
                assert(p[k].0 <= x <= p[k].1);
                assert(t.contains(x));
            }
        }
        assert forall|k: int| 0 <= k < r.len() implies !s.contains((#[trigger] r[k].0 - 1) as u32)
            || r[k].0 == 0 by {
            if k < r.len() - 1 {
                assert(r[k] == p[k]);
                if r[k].0 > 0 && s.contains((r[k].0 - 1) as u32) {
                    assert(p[k].0 <= p[k].1);
                    assert(t.contains((r[k].0 - 1) as u32));
                }
            } else if l > 0 && s.contains((l - 1) as u32) {
                assert(t.contains((l - 1) as u32));
                assert(p.len() > 0);
                let q = choose|q: int| 0 <= q < p.len() && #[trigger] p[q].0 <= (l - 1) as u32 <= p[q].1;
                if q < p.len() - 1 {
                    assert(p[q].1 + 1 < p[p.len() - 1].0);
                    assert(p[p.len() - 1].0 <= p[p.len() - 1].1);
                    assert(t.contains(p[p.len() - 1].1));
                }
            }
        }
        assert forall|k: int| 0 <= k < r.len() implies !s.contains((#[trigger] r[k].1 + 1) as u32)
            || r[k].1 == u32::MAX by {
            if k < r.len() - 1 {
                assert(r[k] == p[k]);
                if r[k].1 < u32::MAX && s.contains((r[k].1 + 1) as u32) {
                    if k < p.len() - 1 {
                        assert(p[k].1 + 1 < p[p.len() - 1].0);
                        assert(p[p.len() - 1].0 <= p[p.len() - 1].1);
                        assert(t.contains(p[p.len() - 1].1));
                    }
                    assert(t.contains((r[k].1 + 1) as u32));
                }
            } else if l < u32::MAX && s.contains((l + 1) as u32) {
                assert(t.contains((l + 1) as u32));
            }
        }
        assert forall|k: int, m: int| 0 <= k < m < r.len() implies #[trigger] r[k].1 + 1
            < #[trigger] r[m].0 by {
            if m < r.len() - 1 {
                assert(p[k].1 + 1 < p[m].0);
            } else {
                if k < p.len() - 1 {
                    assert(p[k].1 + 1 < p[p.len() - 1].0);
                    assert(p[p.len() - 1].0 <= p[p.len() - 1].1);
                }
                assert(t.contains(p[p.len() - 1].1));
            }
        }
        assert forall|x: u32| #[trigger] s.contains(x) implies exists|k: int|
            0 <= k < r.len() && #[trigger] r[k].0 <= x <= r[k].1 by {
            if x == l {
                assert(r[r.len() - 1].0 <= x <= r[r.len() - 1].1);
            } else {
                assert(t.contains(x));
                let k = choose|k: int| 0 <= k < p.len() && #[trigger] p[k].0 <= x <= p[k].1;
                assert(r[k].0 <= x <= r[k].1);
            }
        }
    }
}

/// Splits `xs` into runs of consecutive values, as `(first, last)` pairs.
///
/// For sorted, duplicate-free input these are the maximal intervals of its values.
pub fn contiguous_runs(xs: &[u32]) -> (runs: Vec<(u32, u32)>)
    requires
        forall|i: int| 0 <= i < xs@.len() - 1 ==> xs@[i] < u32::MAX,
    ensures
        runs@ == consecutive_runs(xs@),
        strictly_increasing(xs@) ==> maximal_intervals(xs@, runs@),
{
    proof {
        if strictly_increasing(xs@) {
            lemma_consecutive_runs_increasing(xs@);
        }
    }
    if xs.len() == 0 {
        return Vec::new();
    }
    let first = xs[0];
    let mut runs: Vec<(u32, u32)> = Vec::new();
    let mut start = first;
    let mut end = first;
    let mut i: usize = 1;
    assert(xs@.take(1).drop_last() =~= Seq::<u32>::empty());
    assert(consecutive_runs(Seq::<u32>::empty()) =~= Seq::<(u32, u32)>::empty());
    assert(xs@.take(1).last() == first);
    assert(runs@.push((start, end)) =~= consecutive_runs(xs@.take(1)));
    while i < xs.len()
        invariant
            1 <= i <= xs@.len(),
            forall|k: int| 0 <= k < xs@.len() - 1 ==> xs@[k] < u32::MAX,
            end == xs@[i - 1],
            runs@.push((start, end)) == consecutive_runs(xs@.take(i as int)),
        decreases xs@.len() - i,
    {
        let x = xs[i];
        let ghost before = consecutive_runs(xs@.take(i as int));
        assert(xs@.take(i + 1).drop_last() =~= xs@.take(i as int));
        assert(xs@.take(i + 1).last() == x);
        if x == end + 1 {
            end = x;
            assert(runs@.push((start, end)) =~= before.update(before.len() - 1, (before.last().0, x)));
        } else {
            runs.push((start, end));
            start = x;
            end = x;
        }
        i += 1;
    }
    runs.push((start, end));
    assert(xs@.take(xs@.len() as int) =~= xs@);
    runs
}

} // verus!
