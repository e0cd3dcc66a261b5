//! Lists that are strictly increasing under an order.
use vstd::prelude::*;

verus! {

/// No two values each come before the other under `lt` (so none comes before itself).
pub open spec fn asymmetric<A>(lt: spec_fn(A, A) -> bool) -> bool {
    forall|x: A, y: A| #[trigger] lt(x, y) ==> !lt(y, x)
}

/// `s` is strictly increasing under `lt`.
pub open spec fn sorted_by<A>(s: Seq<A>, lt: spec_fn(A, A) -> bool) -> bool {
    forall|i: int, j: int| 0 <= i < j < s.len() ==> lt(#[trigger] s[i], #[trigger] s[j])
}

/// A list that is strictly increasing under an asymmetric order is determined
/// by the values it holds: two such lists with the same values are equal.
pub proof fn lemma_sorted_unique<A>(a: Seq<A>, b: Seq<A>, lt: spec_fn(A, A) -> bool)
    requires
        asymmetric(lt),
        sorted_by(a, lt),
        sorted_by(b, lt),
        forall|x: A| a.contains(x) <==> b.contains(x),
    ensures
        a == b,
    decreases a.len(),
{
    if a.len() == 0 {
        if b.len() > 0 {
            assert(b.contains(b[0]));
        }
        assert(a =~= b);
        return;
    }
    assert(a.contains(a[0]));
    assert(b.len() > 0);
    assert(b.contains(b[0]));
    let k = choose|k: int| 0 <= k < b.len() && b[k] == a[0];
    let m = choose|m: int| 0 <= m < a.len() && a[m] == b[0];
    if k > 0 {
        assert(lt(b[0], b[k]));
        if m > 0 {
            assert(lt(a[0], a[m]));
        }
    } else if m > 0 {
        assert(lt(a[0], a[m]));
    }
    assert(a[0] == b[0]);
    let ra = a.drop_first();
    let rb = b.drop_first();
    assert forall|x: A| ra.contains(x) <==> rb.contains(x) by {
        if ra.contains(x) {
            let p = choose|p: int| 0 <= p < ra.len() && ra[p] == x;
            assert(a[p + 1] == x);
            assert(lt(a[0], a[p + 1]));
            assert(b.contains(x));
            let q = choose|q: int| 0 <= q < b.len() && b[q] == x;
            assert(q != 0);
            assert(rb[q - 1] == x);
        }
        if rb.contains(x) {
            let p = choose|p: int| 0 <= p < rb.len() && rb[p] == x;
            assert(b[p + 1] == x);
            assert(lt(b[0], b[p + 1]));
            assert(a.contains(x));
            let q = choose|q: int| 0 <= q < a.len() && a[q] == x;
            assert(q != 0);
            assert(ra[q - 1] == x);
        }
    }
    assert forall|i: int, j: int| 0 <= i < j < ra.len() implies lt(#[trigger] ra[i], #[trigger] ra[j]) by {
        assert(lt(a[i + 1], a[j + 1]));
    }
    assert forall|i: int, j: int| 0 <= i < j < rb.len() implies lt(#[trigger] rb[i], #[trigger] rb[j]) by {
        assert(lt(b[i + 1], b[j + 1]));
    }
    lemma_sorted_unique(ra, rb, lt);
    assert(a =~= seq![a[0]] + ra);
    assert(b =~= seq![b[0]] + rb);
}

} // verus!
