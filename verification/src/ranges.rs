//! Sequences of `(low, high)` pairs: their order, and sorting them.

use vstd::prelude::*;

verus! {

/// A single version number.
pub type Version = u32;

/// The order of pairs: by `low` first, then by `high`.
pub open spec fn pair_lt(a: (Version, Version), b: (Version, Version)) -> bool {
    a.0 < b.0 || (a.0 == b.0 && a.1 < b.1)
}

/// Every pair is below all pairs after it, so that no pair occurs twice.
pub open spec fn strictly_ascending(pairs: Seq<(Version, Version)>) -> bool {
    forall|i: int, j: int| 0 <= i < j < pairs.len() ==> pair_lt(pairs[i], pairs[j])
}

/// `sorted` holds exactly the pairs of `pairs`, each once, in ascending order.
pub open spec fn is_sorted_form(
    sorted: Seq<(Version, Version)>,
    pairs: Seq<(Version, Version)>,
) -> bool {
    &&& strictly_ascending(sorted)
    &&& forall|p: (Version, Version)| sorted.contains(p) <==> pairs.contains(p)
}

/// The pairs of `pairs` sorted, with duplicates removed.
pub open spec fn sorted_pairs(pairs: Seq<(Version, Version)>) -> Seq<(Version, Version)> {
    choose|sorted: Seq<(Version, Version)>| is_sorted_form(sorted, pairs)
}

/// Two strictly ascending sequences that hold the same pairs are equal.
pub proof fn lemma_ascending_unique(a: Seq<(Version, Version)>, b: Seq<(Version, Version)>)
    requires
        strictly_ascending(a),
        strictly_ascending(b),
        forall|p: (Version, Version)| a.contains(p) <==> b.contains(p),
    ensures
        a == b,
    decreases a.len(),
{
    if a.len() == 0 {
        if b.len() > 0 {
            assert(b.contains(b[0]));
        }
        assert(a =~= b);
    } else {
        let x = a.last();
        assert(a.contains(x));
        assert(b.contains(x));
        let y = b.last();
        assert(b.contains(y));
        assert(a.contains(y));
        let jx = choose|j: int| 0 <= j < b.len() && b[j] == x;
        let jy = choose|j: int| 0 <= j < a.len() && a[j] == y;
        if jx < b.len() - 1 {
            assert(pair_lt(b[jx], b[b.len() - 1]));
        }
        if jy < a.len() - 1 {
            assert(pair_lt(a[jy], a[a.len() - 1]));
        }
        assert(x == y);
        let a0 = a.drop_last();
        let b0 = b.drop_last();
        assert forall|p: (Version, Version)| a0.contains(p) <==> b0.contains(p) by {
            if a0.contains(p) {
                let i = choose|i: int| 0 <= i < a0.len() && a0[i] == p;
                assert(a[i] == p);
                assert(pair_lt(p, x));
                assert(a.contains(p));
                let j = choose|j: int| 0 <= j < b.len() && b[j] == p;
                assert(b0[j] == p);
            }
            if b0.contains(p) {
                let i = choose|i: int| 0 <= i < b0.len() && b0[i] == p;
                assert(b[i] == p);
                assert(pair_lt(p, y));
                assert(b.contains(p));
                let j = choose|j: int| 0 <= j < a.len() && a[j] == p;
                assert(a0[j] == p);
            }
        }
        lemma_ascending_unique(a0, b0);
        assert(a =~= a0.push(x));
        assert(b =~= b0.push(y));
    }
}

/// What holds exactly the pairs of `pairs` in strictly ascending order is
/// `sorted_pairs(pairs)`.
pub proof fn lemma_sorted_pairs_is(sorted: Seq<(Version, Version)>, pairs: Seq<(Version, Version)>)
    requires
        is_sorted_form(sorted, pairs),
    ensures
        sorted_pairs(pairs) == sorted,
{
    lemma_ascending_unique(sorted_pairs(pairs), sorted);
}

/// Merges two strictly ascending vectors into one; a pair that both hold
/// comes out once.
fn merge(a: &Vec<(Version, Version)>, b: &Vec<(Version, Version)>) -> (r: Vec<(Version, Version)>)
    requires
        strictly_ascending(a@),
        strictly_ascending(b@),
    ensures
        strictly_ascending(r@),
        forall|p: (Version, Version)| r@.contains(p) <==> a@.contains(p) || b@.contains(p),
{
    let mut out: Vec<(Version, Version)> = Vec::new();
    let mut i: usize = 0;
    let mut j: usize = 0;
    while i < a.len() || j < b.len()
        invariant
            i <= a.len(),
            j <= b.len(),
            strictly_ascending(a@),
            strictly_ascending(b@),
            strictly_ascending(out@),
            forall|k: int, m: int| 0 <= k < out.len() && i <= m < a.len() ==> pair_lt(out@[k], a@[m]),
            forall|k: int, m: int| 0 <= k < out.len() && j <= m < b.len() ==> pair_lt(out@[k], b@[m]),
            forall|p: (Version, Version)|
                out@.contains(p) <==> a@.take(i as int).contains(p) || b@.take(j as int).contains(
                    p,
                ),
        decreases a.len() - i + b.len() - j,
    {
        let ghost before = out@;
        let ghost (i0, j0) = (i, j);
        let next: (Version, Version);
        if j >= b.len() {
            next = a[i];
            i += 1;
        } else if i >= a.len() {
            next = b[j];
            j += 1;
        } else {
            let x = a[i];
            let y = b[j];
            if x.0 < y.0 || (x.0 == y.0 && x.1 < y.1) {
                next = x;
                i += 1;
            } else if x.0 == y.0 && x.1 == y.1 {
                next = x;
                i += 1;
                j += 1;
            } else {
                next = y;
                j += 1;
            }
        }
        out.push(next);
        proof {
            assert forall|k: int, m: int| 0 <= k < out.len() && i <= m < a.len() implies pair_lt(
                out@[k],
                a@[m],
            ) by {
                if k < before.len() {
                    assert(pair_lt(before[k], a@[m]));
                } else if i > i0 {
                    assert(pair_lt(a@[i0 as int], a@[m]));
                } else {
                    if m > i0 {
                        assert(pair_lt(a@[i0 as int], a@[m]));
                    }
                }
            }
            assert forall|k: int, m: int| 0 <= k < out.len() && j <= m < b.len() implies pair_lt(
                out@[k],
                b@[m],
            ) by {
                if k < before.len() {
                    assert(pair_lt(before[k], b@[m]));
                } else if j > j0 {
                    assert(pair_lt(b@[j0 as int], b@[m]));
                } else {
                    if m > j0 {
                        assert(pair_lt(b@[j0 as int], b@[m]));
                    }
                }
            }
            assert(strictly_ascending(out@)) by {
                assert forall|k: int, m: int| 0 <= k < m < out@.len() implies pair_lt(
                    out@[k],
                    out@[m],
                ) by {
                    if m < before.len() {
                        assert(pair_lt(before[k], before[m]));
                    } else if i > i0 {
                        assert(pair_lt(before[k], a@[i0 as int]));
                    } else {
                        assert(pair_lt(before[k], b@[j0 as int]));
                    }
                }
            }
            assert forall|p: (Version, Version)|
                out@.contains(p) <==> a@.take(i as int).contains(p) || b@.take(j as int).contains(
                    p,
                ) by {
                let (ta, tb) = (a@.take(i as int), b@.take(j as int));
                let (ta0, tb0) = (a@.take(i0 as int), b@.take(j0 as int));
                if out@.contains(p) {
                    let k = choose|k: int| 0 <= k < out@.len() && out@[k] == p;
                    if k < before.len() {
                        assert(before[k] == p);
                        assert(before.contains(p));
                        if ta0.contains(p) {
                            let m = choose|m: int| 0 <= m < ta0.len() && ta0[m] == p;
                            assert(ta[m] == p);
                        } else {
                            let m = choose|m: int| 0 <= m < tb0.len() && tb0[m] == p;
                            assert(tb[m] == p);
                        }
                    } else {
                        if i > i0 {
                            assert(ta[i0 as int] == p);
                        } else {
                            assert(tb[j0 as int] == p);
                        }
                    }
                }
                if ta.contains(p) {
                    let m = choose|m: int| 0 <= m < ta.len() && ta[m] == p;
                    if m < i0 {
                        assert(ta0[m] == p);
                        assert(before.contains(p));
                        let k = choose|k: int| 0 <= k < before.len() && before[k] == p;
                        assert(out@[k] == p);
                    } else {
                        assert(out@[before.len() as int] == p);
                    }
                }
                if tb.contains(p) {
                    let m = choose|m: int| 0 <= m < tb.len() && tb[m] == p;
                    if m < j0 {
                        assert(tb0[m] == p);
                        assert(before.contains(p));
                        let k = choose|k: int| 0 <= k < before.len() && before[k] == p;
                        assert(out@[k] == p);
                    } else {
                        assert(out@[before.len() as int] == p);
                    }
                }
            }
        }
    }
    proof {
        assert(a@.take(i as int) == a@);
        assert(b@.take(j as int) == b@);
    }
    out
}

/// Sorts `pairs` and removes duplicates.
pub fn sort_dedup(pairs: &[(Version, Version)]) -> (r: Vec<(Version, Version)>)
    ensures
        r@ == sorted_pairs(pairs@),
        is_sorted_form(r@, pairs@),
    decreases pairs.len(),
{
    let n = pairs.len();
    let mut out: Vec<(Version, Version)>;
    if n == 0 {
        out = Vec::new();
    } else if n == 1 {
        out = Vec::new();
        out.push(pairs[0]);
        proof {
            assert forall|p: (Version, Version)| out@.contains(p) <==> pairs@.contains(p) by {
                if out@.contains(p) {
                    assert(pairs@[0] == p);
                }
                if pairs@.contains(p) {
                    assert(out@[0] == p);
                }
            }
        }
    } else {
        let mid = n / 2;
        let left = sort_dedup(&pairs[0..mid]);
        let right = sort_dedup(&pairs[mid..n]);
        out = merge(&left, &right);
        proof {
            let (l, r) = (pairs@.subrange(0, mid as int), pairs@.subrange(mid as int, n as int));
            assert forall|p: (Version, Version)| out@.contains(p) <==> pairs@.contains(p) by {
                if l.contains(p) {
                    let k = choose|k: int| 0 <= k < l.len() && l[k] == p;
                    assert(pairs@[k] == p);
                }
                if r.contains(p) {
                    let k = choose|k: int| 0 <= k < r.len() && r[k] == p;
                    assert(pairs@[k + mid] == p);
                }
                if pairs@.contains(p) {
                    let k = choose|k: int| 0 <= k < pairs@.len() && pairs@[k] == p;
                    if k < mid {
                        assert(l[k] == p);
                    } else {
                        assert(r[k - mid] == p);
                    }
                }
            }
        }
    }
    proof {
        lemma_sorted_pairs_is(out@, pairs@);
    }
    out
}

} // verus!
