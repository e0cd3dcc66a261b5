//! Lexicographic order of texts and a merge sort of distinct texts.
use vstd::prelude::*;

use crate::order::{lemma_sorted_unique, sorted_by};

verus! {

/// `a` comes no later than `b` in lexicographic order by code point.
pub open spec fn text_le(a: Seq<char>, b: Seq<char>) -> bool
    decreases a.len(),
{
    if a.len() == 0 {
        true
    } else if b.len() == 0 {
        false
    } else if a[0] != b[0] {
        a[0] < b[0]
    } else {
        text_le(a.drop_first(), b.drop_first())
    }
}

/// `a` comes strictly before `b` in lexicographic order.
pub open spec fn text_lt(a: Seq<char>, b: Seq<char>) -> bool {
    text_le(a, b) && a != b
}

/// The contents of a list of strings.
pub open spec fn texts_of(v: Seq<String>) -> Seq<Seq<char>> {
    v.map_values(|s: String| s@)
}

/// `s` is strictly increasing in lexicographic order.
pub open spec fn strictly_sorted(s: Seq<Seq<char>>) -> bool {
    forall|i: int, j: int| 0 <= i < j < s.len() ==> text_lt(#[trigger] s[i], #[trigger] s[j])
}

/// `a` and `b` agree before position `k` and `a` has the smaller character there.
pub open spec fn differs_first_below(a: Seq<char>, b: Seq<char>, k: int) -> bool {
    &&& 0 <= k < a.len()
    &&& k < b.len()
    &&& a.take(k) == b.take(k)
    &&& a[k] < b[k]
}

/// Lexicographic order by code point: `a` comes no later than `b` exactly when
/// `a` is a prefix of `b`, or at the first position where they differ `a` has
/// the character with the smaller code point.
pub proof fn lemma_text_le_first_difference(a: Seq<char>, b: Seq<char>)
    ensures
        text_le(a, b) <==> a.is_prefix_of(b) || exists|k: int| #[trigger] differs_first_below(a, b, k),
    decreases a.len(),
{
    if a.len() == 0 {
        assert(a =~= b.subrange(0, 0));
    } else if b.len() == 0 {
        assert(!a.is_prefix_of(b));
        assert forall|k: int| !#[trigger] differs_first_below(a, b, k) by {}
    } else if a[0] != b[0] {
        assert(!a.is_prefix_of(b)) by {
            if a.is_prefix_of(b) {
                assert(a[0] == b.subrange(0, a.len() as int)[0]);
            }
        }
        if a[0] < b[0] {
            assert(a.take(0) =~= b.take(0));
            assert(differs_first_below(a, b, 0));
        } else {
            assert forall|k: int| !#[trigger] differs_first_below(a, b, k) by {
                if differs_first_below(a, b, k) && k > 0 {
                    assert(a.take(k)[0] == b.take(k)[0]);
                }
            }
        }
    } else {
        let ra = a.drop_first();
        let rb = b.drop_first();
        lemma_text_le_first_difference(ra, rb);
        assert(a.is_prefix_of(b) <==> ra.is_prefix_of(rb)) by {
            if a.is_prefix_of(b) {
                assert(ra =~= rb.subrange(0, ra.len() as int)) by {
                    assert forall|i: int| 0 <= i < ra.len() implies ra[i] == rb.subrange(0, ra.len() as int)[i] by {
                        assert(a[i + 1] == b.subrange(0, a.len() as int)[i + 1]);
                    }
                }
            }
            if ra.is_prefix_of(rb) {
                assert(a =~= b.subrange(0, a.len() as int)) by {
                    assert forall|i: int| 0 <= i < a.len() implies a[i] == b.subrange(0, a.len() as int)[i] by {
                        if i > 0 {
                            assert(ra[i - 1] == rb.subrange(0, ra.len() as int)[i - 1]);
                        }
                    }
                }
            }
        }
        assert((exists|k: int| #[trigger] differs_first_below(a, b, k)) <==> (exists|k: int|
            #[trigger] differs_first_below(ra, rb, k))) by {
            if exists|k: int| #[trigger] differs_first_below(a, b, k) {
                let k = choose|k: int| #[trigger] differs_first_below(a, b, k);
                assert(k > 0);
                assert(ra.take(k - 1) =~= rb.take(k - 1)) by {
                    assert forall|i: int| 0 <= i < k - 1 implies #[trigger] ra.take(k - 1)[i] == rb.take(k - 1)[i] by {
                        assert(a.take(k)[i + 1] == b.take(k)[i + 1]);
                    }
                }
                assert(differs_first_below(ra, rb, k - 1));
            }
            if exists|k: int| #[trigger] differs_first_below(ra, rb, k) {
                let k = choose|k: int| #[trigger] differs_first_below(ra, rb, k);
                assert(a.take(k + 1) =~= b.take(k + 1)) by {
                    assert forall|i: int| 0 <= i < k + 1 implies #[trigger] a.take(k + 1)[i] == b.take(k + 1)[i] by {
                        if i > 0 {
                            assert(ra.take(k)[i - 1] == rb.take(k)[i - 1]);
                        }
                    }
                }
                assert(differs_first_below(a, b, k + 1));
            }
        }
    }
}

/// On single characters, lexicographic order is code-point order.
pub proof fn lemma_text_lt_characters(c: char, d: char)
    ensures
        text_lt(seq![c], seq![d]) <==> c < d,
{
    let a = seq![c];
    let b = seq![d];
    assert(a.drop_first() =~= Seq::<char>::empty());
    assert(b.drop_first() =~= Seq::<char>::empty());
    assert(text_le(Seq::<char>::empty(), Seq::<char>::empty()));
    if c == d {
        assert(a =~= b);
    }
}

pub proof fn lemma_text_le_antisymmetric(a: Seq<char>, b: Seq<char>)
    requires
        text_le(a, b),
        text_le(b, a),
    ensures
        a == b,
    decreases a.len(),
{
    if a.len() > 0 && b.len() > 0 && a[0] == b[0] {
        lemma_text_le_antisymmetric(a.drop_first(), b.drop_first());
        assert(a =~= seq![a[0]] + a.drop_first());
        assert(b =~= seq![b[0]] + b.drop_first());
    } else if a.len() == 0 && b.len() == 0 {
        assert(a =~= b);
    }
}

pub proof fn lemma_text_le_transitive(a: Seq<char>, b: Seq<char>, c: Seq<char>)
    requires
        text_le(a, b),
        text_le(b, c),
    ensures
        text_le(a, c),
    decreases a.len(),
{
    if a.len() > 0 && b.len() > 0 && c.len() > 0 && a[0] == b[0] && b[0] == c[0] {
        lemma_text_le_transitive(a.drop_first(), b.drop_first(), c.drop_first());
    }
}

pub proof fn lemma_text_le_total(a: Seq<char>, b: Seq<char>)
    ensures
        text_le(a, b) || text_le(b, a),
    decreases a.len(),
{
    if a.len() > 0 && b.len() > 0 && a[0] == b[0] {
        lemma_text_le_total(a.drop_first(), b.drop_first());
    }
}

pub proof fn lemma_text_lt_transitive(a: Seq<char>, b: Seq<char>, c: Seq<char>)
    requires
        text_lt(a, b),
        text_lt(b, c),
    ensures
        text_lt(a, c),
{
    lemma_text_le_transitive(a, b, c);
    if a == c {
        lemma_text_le_antisymmetric(a, b);
    }
}

/// A strictly sorted list of texts is determined by the texts it holds: two
/// such lists with the same texts are equal.
pub proof fn lemma_strictly_sorted_unique(a: Seq<Seq<char>>, b: Seq<Seq<char>>)
    requires
        strictly_sorted(a),
        strictly_sorted(b),
        forall|t: Seq<char>| a.contains(t) <==> b.contains(t),
    ensures
        a == b,
{
    let lt = |p: Seq<char>, q: Seq<char>| text_lt(p, q);
    assert forall|p: Seq<char>, q: Seq<char>| #[trigger] lt(p, q) implies !lt(q, p) by {
        if text_lt(q, p) {
            lemma_text_le_antisymmetric(p, q);
        }
    }
    assert(sorted_by(a, lt));
    assert(sorted_by(b, lt));
    lemma_sorted_unique(a, b, lt);
}

/// Compares two texts in lexicographic order.
fn text_le_exec(a: &String, b: &String) -> (le: bool)
    ensures
        le == text_le(a@, b@),
{
    let la = a.as_str().unicode_len();
    let lb = b.as_str().unicode_len();
    let mut i: usize = 0;
    assert(a@.skip(0) =~= a@);
    assert(b@.skip(0) =~= b@);
    while i < la && i < lb
        invariant
            la == a@.len(),
            lb == b@.len(),
            i <= la,
            i <= lb,
            text_le(a@, b@) == text_le(a@.skip(i as int), b@.skip(i as int)),
        decreases la - i,
    {
        let ca = a.as_str().get_char(i);
        let cb = b.as_str().get_char(i);
        assert(a@.skip(i as int)[0] == ca);
        assert(b@.skip(i as int)[0] == cb);
        if ca != cb {
            return ca < cb;
        }
        assert(a@.skip(i as int).drop_first() =~= a@.skip(i + 1));
        assert(b@.skip(i as int).drop_first() =~= b@.skip(i + 1));
        i += 1;
    }
    i == la
}

/// Merges two strictly sorted lists without a common text.
fn merge_texts(a: &Vec<String>, b: &Vec<String>) -> (out: Vec<String>)
    requires
        strictly_sorted(texts_of(a@)),
        strictly_sorted(texts_of(b@)),
        forall|t: Seq<char>| !(texts_of(a@).contains(t) && texts_of(b@).contains(t)),
    ensures
        strictly_sorted(texts_of(out@)),
        forall|t: Seq<char>| #[trigger] texts_of(out@).contains(t) <==> texts_of(a@).contains(t) || texts_of(b@).contains(t),
{
    let ghost ta = texts_of(a@);
    let ghost tb = texts_of(b@);
    let mut out: Vec<String> = Vec::new();
    let mut i: usize = 0;
    let mut j: usize = 0;
    while i < a.len() || j < b.len()
        invariant
            ta == texts_of(a@),
            tb == texts_of(b@),
            strictly_sorted(ta),
            strictly_sorted(tb),
            forall|t: Seq<char>| !(ta.contains(t) && tb.contains(t)),
            i <= a@.len(),
            j <= b@.len(),
            strictly_sorted(texts_of(out@)),
            forall|t: Seq<char>| #[trigger] texts_of(out@).contains(t) <==> ta.take(i as int).contains(t) || tb.take(j as int).contains(t),
            out@.len() > 0 && i < a@.len() ==> text_lt(texts_of(out@).last(), ta[i as int]),
            out@.len() > 0 && j < b@.len() ==> text_lt(texts_of(out@).last(), tb[j as int]),
        decreases a@.len() + b@.len() - i - j,
    {
        let take_a = if i == a.len() {
            false
        } else if j == b.len() {
            true
        } else {
            text_le_exec(&a[i], &b[j])
        };
        let ghost before = texts_of(out@);
        let ghost pick: Seq<char>;
        if take_a {
            out.push(a[i].clone());
            proof {
                pick = ta[i as int];
            }
            i += 1;
        } else {
            out.push(b[j].clone());
            proof {
                pick = tb[j as int];
            }
            j += 1;
        }
        proof {
            assert(texts_of(out@) =~= before.push(pick));
            if take_a {
                assert(ta.take(i as int) =~= ta.take(i - 1).push(pick));
                assert(tb.contains(tb[j as int]) || j == b@.len());
                if j < b@.len() {
                    assert(text_le(pick, tb[j as int]));
                    assert(ta.contains(pick));
                    assert(pick != tb[j as int]) by {
                        assert(tb.contains(tb[j as int]));
                    }
                }
                if i < a@.len() {
                    assert(text_lt(ta[i - 1], ta[i as int]));
                }
            } else {
                assert(tb.take(j as int) =~= tb.take(j - 1).push(pick));
                if i < a@.len() {
                    lemma_text_le_total(ta[i as int], pick);
                    assert(ta.contains(ta[i as int]));
                    assert(tb.contains(pick));
                    assert(text_lt(pick, ta[i as int]));
                }
                if j < b@.len() {
                    assert(text_lt(tb[j - 1], tb[j as int]));
                }
            }
            assert forall|p: int, q: int| 0 <= p < q < texts_of(out@).len() implies text_lt(
                #[trigger] texts_of(out@)[p],
                #[trigger] texts_of(out@)[q],
            ) by {
                if q == texts_of(out@).len() - 1 && p < q {
                    if p < before.len() - 1 {
                        lemma_text_lt_transitive(before[p], before.last(), pick);
                    }
                }
            }
            assert forall|t: Seq<char>| #[trigger] texts_of(out@).contains(t) <==> ta.take(i as int).contains(t) || tb.take(j as int).contains(t) by {
                let old_a = if take_a { ta.take(i - 1) } else { ta.take(i as int) };
                let old_b = if take_a { tb.take(j as int) } else { tb.take(j - 1) };
                assert(before.contains(t) <==> old_a.contains(t) || old_b.contains(t));
                if take_a {
                    assert(ta.take(i as int) == old_a.push(pick));
                    assert(old_a.push(pick).contains(t) <==> old_a.contains(t) || t == pick) by {
                        if old_a.push(pick).contains(t) && t != pick {
                            let k = choose|k: int| 0 <= k < old_a.len() + 1 && old_a.push(pick)[k] == t;
                            assert(old_a[k] == t);
                        }
                        if old_a.contains(t) {
                            let k = choose|k: int| 0 <= k < old_a.len() && old_a[k] == t;
                            assert(old_a.push(pick)[k] == t);
                        }
                        if t == pick {
                            assert(old_a.push(pick)[old_a.len() as int] == t);
                        }
                    }
                } else {
                    assert(tb.take(j as int) == old_b.push(pick));
                    assert(old_b.push(pick).contains(t) <==> old_b.contains(t) || t == pick) by {
                        if old_b.push(pick).contains(t) && t != pick {
                            let k = choose|k: int| 0 <= k < old_b.len() + 1 && old_b.push(pick)[k] == t;
                            assert(old_b[k] == t);
                        }
                        if old_b.contains(t) {
                            let k = choose|k: int| 0 <= k < old_b.len() && old_b[k] == t;
                            assert(old_b.push(pick)[k] == t);
                        }
                        if t == pick {
                            assert(old_b.push(pick)[old_b.len() as int] == t);
                        }
                    }
                }
                assert(before.push(pick).contains(t) <==> before.contains(t) || t == pick) by {
                    if before.push(pick).contains(t) && t != pick {
                        let k = choose|k: int| 0 <= k < before.len() + 1 && before.push(pick)[k] == t;
                        assert(before[k] == t);
                    }
                    if before.contains(t) {
                        let k = choose|k: int| 0 <= k < before.len() && before[k] == t;
                        assert(before.push(pick)[k] == t);
                    }
                    if t == pick {
                        assert(before.push(pick)[before.len() as int] == t);
                    }
                }
            }
        }
    }
    proof {
        assert(ta.take(a@.len() as int) =~= ta);
        assert(tb.take(b@.len() as int) =~= tb);
    }
    out
}

/// Sorts distinct texts into lexicographic order.
pub fn sort_texts(v: Vec<String>) -> (out: Vec<String>)
    requires
        texts_of(v@).no_duplicates(),
    ensures
        strictly_sorted(texts_of(out@)),
        forall|t: Seq<char>| #[trigger] texts_of(out@).contains(t) <==> texts_of(v@).contains(t),
    decreases v@.len(),
{
    if v.len() <= 1 {
        return v;
    }
    let ghost whole = texts_of(v@);
    let mut left = v;
    let mid = left.len() / 2;
    let right = left.split_off(mid);
    proof {
        assert(texts_of(left@) =~= whole.subrange(0, mid as int));
        assert(texts_of(right@) =~= whole.subrange(mid as int, whole.len() as int));
        assert(texts_of(left@).no_duplicates());
        assert(texts_of(right@).no_duplicates());
    }
    let sorted_left = sort_texts(left);
    let sorted_right = sort_texts(right);
    proof {
        assert forall|t: Seq<char>| !(texts_of(sorted_left@).contains(t) && texts_of(sorted_right@).contains(t)) by {
            if texts_of(sorted_left@).contains(t) && texts_of(sorted_right@).contains(t) {
                let p = choose|p: int| 0 <= p < texts_of(left@).len() && texts_of(left@)[p] == t;
                let q = choose|q: int| 0 <= q < texts_of(right@).len() && texts_of(right@)[q] == t;
                assert(whole[p] == t);
                assert(whole[mid + q] == t);
            }
        }
    }
    let out = merge_texts(&sorted_left, &sorted_right);
    proof {
        assert forall|t: Seq<char>| #[trigger] texts_of(out@).contains(t) <==> whole.contains(t) by {
            if whole.contains(t) {
                let k = choose|k: int| 0 <= k < whole.len() && whole[k] == t;
                if k < mid {
                    assert(texts_of(left@)[k] == t);
                } else {
                    assert(texts_of(right@)[k - mid] == t);
                }
            }
            if texts_of(left@).contains(t) {
                let k = choose|k: int| 0 <= k < texts_of(left@).len() && texts_of(left@)[k] == t;
                assert(whole[k] == t);
            }
            if texts_of(right@).contains(t) {
                let k = choose|k: int| 0 <= k < texts_of(right@).len() && texts_of(right@)[k] == t;
                assert(whole[mid + k] == t);
            }
        }
    }
    out
}

} // verus!
