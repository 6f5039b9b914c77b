//! The order of texts, character by character, and sorting by it.

use vstd::prelude::*;

verus! {

/// Whether `a` comes before `b`: at the first place where they differ, `a`
/// has the lower character, or `a` ends there and `b` goes on.
pub open spec fn text_lt(a: Seq<char>, b: Seq<char>) -> bool
    decreases a.len(),
{
    if b.len() == 0 {
        false
    } else if a.len() == 0 {
        true
    } else if a[0] != b[0] {
        a[0] < b[0]
    } else {
        text_lt(a.drop_first(), b.drop_first())
    }
}

/// A text does not come before itself, and of two texts at most one comes
/// before the other.
pub proof fn lemma_text_lt_asymmetric(a: Seq<char>, b: Seq<char>)
    ensures
        !(text_lt(a, b) && text_lt(b, a)),
        !text_lt(a, a),
    decreases a.len(),
{
    if a.len() > 0 {
        lemma_text_lt_asymmetric(a.drop_first(), a.drop_first());
        if b.len() > 0 && a[0] == b[0] {
            lemma_text_lt_asymmetric(a.drop_first(), b.drop_first());
        }
    }
}

/// What comes before a text comes before all that the text comes before.
pub proof fn lemma_text_lt_transitive(a: Seq<char>, b: Seq<char>, c: Seq<char>)
    requires
        text_lt(a, b),
        text_lt(b, c),
    ensures
        text_lt(a, c),
    decreases a.len(),
{
    if a.len() > 0 && b.len() > 0 && c.len() > 0 && a[0] == b[0] && b[0] == c[0] {
        lemma_text_lt_transitive(a.drop_first(), b.drop_first(), c.drop_first());
    }
}

/// Of two different texts one comes before the other.
pub proof fn lemma_text_lt_total(a: Seq<char>, b: Seq<char>)
    requires
        a != b,
    ensures
        text_lt(a, b) || text_lt(b, a),
    decreases a.len(),
{
    if a.len() > 0 && b.len() > 0 && a[0] == b[0] {
        if a.drop_first() == b.drop_first() {
            assert(a =~= seq![a[0]] + a.drop_first());
            assert(b =~= seq![b[0]] + b.drop_first());
        }
        lemma_text_lt_total(a.drop_first(), b.drop_first());
    } else if a.len() == 0 && b.len() == 0 {
        assert(a =~= b);
    }
}

/// Whether `a` comes before `b`.
pub fn comes_before(a: &Vec<char>, b: &Vec<char>) -> (r: bool)
    ensures
        r == text_lt(a@, b@),
{
    let mut i: usize = 0;
    assert(a@.skip(0) == a@ && b@.skip(0) == b@);
    while i < a.len() && i < b.len()
        invariant
            i <= a.len(),
            i <= b.len(),
            text_lt(a@, b@) == text_lt(a@.skip(i as int), b@.skip(i as int)),
        decreases a.len() - i,
    {
        let (x, y) = (a[i], b[i]);
        proof {
            assert(a@.skip(i as int).drop_first() == a@.skip(i + 1));
            assert(b@.skip(i as int).drop_first() == b@.skip(i + 1));
        }
        if x != y {
            return x < y;
        }
        i += 1;
    }
    i < b.len()
}

/// Each text comes before all texts after it.
pub open spec fn ascending_texts(texts: Seq<Seq<char>>) -> bool {
    forall|i: int, j: int| 0 <= i < j < texts.len() ==> text_lt(texts[i], texts[j])
}

/// `sorted` holds exactly the texts of `texts`, in ascending order.
pub open spec fn is_sorted_texts(sorted: Seq<Seq<char>>, texts: Set<Seq<char>>) -> bool {
    &&& ascending_texts(sorted)
    &&& forall|t: Seq<char>| sorted.contains(t) <==> texts.contains(t)
}

/// The texts of `texts` in ascending order.
pub open spec fn sorted_texts(texts: Set<Seq<char>>) -> Seq<Seq<char>> {
    choose|sorted: Seq<Seq<char>>| is_sorted_texts(sorted, texts)
}

/// Two ascending sequences that hold the same texts are equal.
pub proof fn lemma_ascending_texts_unique(a: Seq<Seq<char>>, b: Seq<Seq<char>>)
    requires
        ascending_texts(a),
        ascending_texts(b),
        forall|t: Seq<char>| a.contains(t) <==> b.contains(t),
    ensures
        a == b,
    decreases a.len(),
{
    if a.len() == 0 {
        if b.len() > 0 {
            assert(b.contains(b[0]));
        }
        assert(a =~= b);
    } else {
        let x = a.last();
        assert(a.contains(x));
        assert(b.contains(x));
        let y = b.last();
        assert(b.contains(y));
        assert(a.contains(y));
        let jx = choose|j: int| 0 <= j < b.len() && b[j] == x;
        let jy = choose|j: int| 0 <= j < a.len() && a[j] == y;
        if jx < b.len() - 1 {
            assert(text_lt(b[jx], b[b.len() - 1]));
        }
        if jy < a.len() - 1 {
            assert(text_lt(a[jy], a[a.len() - 1]));
        }
        lemma_text_lt_asymmetric(x, y);
        assert(x == y);
        let a0 = a.drop_last();
        let b0 = b.drop_last();
        assert forall|t: Seq<char>| a0.contains(t) <==> b0.contains(t) by {
            lemma_text_lt_asymmetric(t, t);
            if a0.contains(t) {
                let i = choose|i: int| 0 <= i < a0.len() && a0[i] == t;
                assert(a[i] == t);
                assert(text_lt(a[i], a[a.len() - 1]));
                assert(a.contains(t));
                let j = choose|j: int| 0 <= j < b.len() && b[j] == t;
                assert(b0[j] == t);
            }
            if b0.contains(t) {
                let i = choose|i: int| 0 <= i < b0.len() && b0[i] == t;
                assert(b[i] == t);
                assert(text_lt(b[i], b[b.len() - 1]));
                assert(b.contains(t));
                let j = choose|j: int| 0 <= j < a.len() && a[j] == t;
                assert(a0[j] == t);
            }
        }
        lemma_ascending_texts_unique(a0, b0);
        assert(a =~= a0.push(x));
        assert(b =~= b0.push(y));
    }
}

/// What holds exactly the texts of `texts` in ascending order is
/// `sorted_texts(texts)`.
pub proof fn lemma_sorted_texts_is(sorted: Seq<Seq<char>>, texts: Set<Seq<char>>)
    requires
        is_sorted_texts(sorted, texts),
    ensures
        sorted_texts(texts) == sorted,
{
    lemma_ascending_texts_unique(sorted_texts(texts), sorted);
}

/// The texts at the places that `order` lists.
pub open spec fn arranged(texts: Seq<Vec<char>>, order: Seq<usize>) -> Seq<Seq<char>> {
    Seq::new(order.len(), |k: int| texts[order[k] as int]@)
}

/// `place` is among the places that `order` lists.
pub open spec fn lists(order: Seq<usize>, place: int) -> bool {
    exists|k: int| 0 <= k < order.len() && #[trigger] order[k] == place
}

/// `order` lists every place of a sequence of length `n` once.
pub open spec fn is_arrangement(order: Seq<usize>, n: nat) -> bool {
    &&& order.len() == n
    &&& forall|k: int| 0 <= k < order.len() ==> (#[trigger] order[k]) < n
    &&& forall|i: int| 0 <= i < n ==> #[trigger] lists(order, i)
}

/// The places of `texts` in the ascending order of the texts. No text may
/// occur twice.
pub(crate) fn ascending_order(texts: &Vec<Vec<char>>) -> (order: Vec<usize>)
    requires
        forall|i: int, j: int| 0 <= i < j < texts.len() ==> texts@[i]@ != texts@[j]@,
    ensures
        is_arrangement(order@, texts@.len()),
        ascending_texts(arranged(texts@, order@)),
{
    let mut order: Vec<usize> = Vec::new();
    let mut i: usize = 0;
    while i < texts.len()
        invariant
            i <= texts.len(),
            forall|a: int, b: int| 0 <= a < b < texts.len() ==> texts@[a]@ != texts@[b]@,
            is_arrangement(order@, i as nat),
            ascending_texts(arranged(texts@, order@)),
        decreases texts.len() - i,
    {
        let ghost before = order@;
        let mut p: usize = 0;
        while p < order.len() && comes_before(&texts[order[p]], &texts[i])
            invariant
                p <= order.len(),
                i < texts.len(),
                order@ == before,
                is_arrangement(before, i as nat),
                forall|q: int| 0 <= q < p ==> text_lt(texts@[before[q] as int]@, texts@[i as int]@),
            decreases order.len() - p,
        {
            p += 1;
        }
        order.insert(p, i);
        proof {
            let after = order@;
            let new = texts@[i as int]@;
            assert forall|k: int| 0 <= k < after.len() implies (#[trigger] after[k]) < i + 1 by {
                if k < p {
                    assert(after[k] == before[k]);
                } else if k > p {
                    assert(after[k] == before[k - 1]);
                }
            }
            assert forall|m: int| 0 <= m < i + 1 implies #[trigger] lists(after, m) by {
                if m < i {
                    assert(lists(before, m));
                    let k = choose|k: int| 0 <= k < before.len() && #[trigger] before[k] == m;
                    if k < p {
                        assert(after[k] == m);
                    } else {
                        assert(after[k + 1] == m);
                    }
                } else {
                    assert(after[p as int] == m);
                }
            }
            let (was, now) = (arranged(texts@, before), arranged(texts@, after));
            assert forall|a: int, b: int| 0 <= a < b < now.len() implies text_lt(now[a], now[b]) by {
                let a0 = if a < p { a } else { a - 1 };
                let b0 = if b < p { b } else { b - 1 };
                if a != p && b != p {
                    assert(now[a] == was[a0] && now[b] == was[b0]);
                    assert(text_lt(was[a0], was[b0]));
                } else if b == p {
                    assert(now[a] == was[a]);
                } else {
                    // `a` is the new place: the text after it does not come
                    // before the new text, and is another text
                    assert(now[b] == was[b - 1]);
                    if p < before.len() {
                        let at = texts@[before[p as int] as int]@;
                        assert(!text_lt(at, new));
                        assert(before[p as int] < i);
                        lemma_text_lt_total(at, new);
                        if b - 1 > p {
                            assert(text_lt(was[p as int], was[b - 1]));
                            lemma_text_lt_transitive(new, at, was[b - 1]);
                        }
                    }
                }
            }
        }
        i += 1;
    }
    order
}

} // verus!
