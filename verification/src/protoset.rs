//! Sets of version numbers, stored as ordered `(low, high)` ranges.

use crate::errors::ProtoverError;
use crate::ranges::{
    lemma_sorted_pairs_is, pair_lt, sort_dedup, sorted_pairs, strictly_ascending, Version,
};
use crate::text::{
    decimal, has_char, index_of, is_digit, join, lemma_decimal, lemma_index_of, lemma_index_of_is,
    lemma_join_ends, lemma_join_push, lemma_parse_decimal, lemma_split_join, lemma_trim_identity,
    parse_u32, position, push_decimal, read_u32, split, split_at_char, to_chars, to_text, trim,
    trimmed, views,
};
use vstd::prelude::*;
use vstd::std_specs::cmp::PartialEqSpecImpl;
use vstd::std_specs::convert::FromSpecImpl;

verus! {

// ---------------------------------------------------------------------------
// What a valid sequence of ranges is
// ---------------------------------------------------------------------------
/// What is wrong with the pair at position `i`, given the pair before it:
/// an end equal to `u32::MAX`; or, for any pair but the first, a low end
/// that is not above the high end of the pair before; or a low end above its
/// own high end. Where several of these hold, the first one named counts.
pub open spec fn defect_at(pairs: Seq<(Version, Version)>, i: int) -> Option<ProtoverError> {
    let (low, high) = pairs[i];
    if low == u32::MAX || high == u32::MAX {
        Some(ProtoverError::ExceedsMax)
    } else if i > 0 && low <= pairs[i - 1].1 {
        Some(ProtoverError::Overlap)
    } else if low > high {
        Some(ProtoverError::LowGreaterThanHigh)
    } else {
        None
    }
}

/// No pair has a defect: no end is `u32::MAX`, each low end is at most its
/// high end, and each pair begins above the high end of the one before, so
/// that no version lies in two ranges.
pub open spec fn well_formed(pairs: Seq<(Version, Version)>) -> bool {
    forall|i: int| 0 <= i < pairs.len() ==> defect_at(pairs, i) is None
}

/// The pair at `i` has a defect and no pair before it has one.
pub open spec fn is_first_defect(pairs: Seq<(Version, Version)>, i: int) -> bool {
    &&& 0 <= i < pairs.len()
    &&& defect_at(pairs, i) is Some
    &&& forall|j: int| 0 <= j < i ==> defect_at(pairs, j) is None
}

/// The outcome of validation: the pairs themselves if they are well formed,
/// else the defect of the first pair that has one.
pub open spec fn validated(pairs: Seq<(Version, Version)>) -> Result<
    Seq<(Version, Version)>,
    ProtoverError,
> {
    if well_formed(pairs) {
        Ok(pairs)
    } else {
        Err(defect_at(pairs, choose|i: int| is_first_defect(pairs, i))->0)
    }
}

/// What every `ProtoSet` holds: well-formed pairs. Being well formed they
/// are in strictly ascending order, which is said here once more for the
/// convenience of proofs.
pub open spec fn canonical(pairs: Seq<(Version, Version)>) -> bool {
    well_formed(pairs) && strictly_ascending(pairs)
}

/// In well-formed pairs every range ends below the start of every later
/// one: the ranges are disjoint, and the pairs strictly ascending.
pub proof fn lemma_well_formed_disjoint(pairs: Seq<(Version, Version)>, i: int, j: int)
    requires
        well_formed(pairs),
        0 <= i < j < pairs.len(),
    ensures
        pairs[i].0 <= pairs[i].1 < pairs[j].0 <= pairs[j].1,
        pair_lt(pairs[i], pairs[j]),
    decreases j - i,
{
    assert(defect_at(pairs, i) is None);
    assert(defect_at(pairs, j) is None);
    if i < j - 1 {
        lemma_well_formed_disjoint(pairs, i, j - 1);
        assert(defect_at(pairs, j - 1) is None);
    }
}

/// Well-formed pairs are canonical.
pub proof fn lemma_well_formed_canonical(pairs: Seq<(Version, Version)>)
    requires
        well_formed(pairs),
    ensures
        canonical(pairs),
{
    assert forall|i: int, j: int| 0 <= i < j < pairs.len() implies pair_lt(pairs[i], pairs[j]) by {
        lemma_well_formed_disjoint(pairs, i, j);
    }
}

/// Where the first defect is, validation reports that defect.
pub proof fn lemma_validated_err(pairs: Seq<(Version, Version)>, i: int)
    requires
        is_first_defect(pairs, i),
    ensures
        validated(pairs) == Err::<Seq<(Version, Version)>, _>(defect_at(pairs, i)->0),
{
    let k = choose|k: int| is_first_defect(pairs, k);
    assert(is_first_defect(pairs, k));
    if k < i {
        assert(defect_at(pairs, k) is None);
    }
    if i < k {
        assert(defect_at(pairs, i) is None);
    }
}

// ---------------------------------------------------------------------------
// What a sequence of ranges holds
// ---------------------------------------------------------------------------
/// Some range of `pairs` bounds `version`.
pub open spec fn covers(pairs: Seq<(Version, Version)>, version: Version) -> bool {
    exists|i: int| 0 <= i < pairs.len() && (#[trigger] pairs[i]).0 <= version <= pairs[i].1
}

/// The versions from `low` to `high`, both included, in ascending order.
pub open spec fn range_versions(low: Version, high: Version) -> Seq<Version> {
    if low <= high {
        Seq::new((high - low + 1) as nat, |k: int| (low + k) as Version)
    } else {
        Seq::empty()
    }
}

/// Every version of every range, range after range.
pub open spec fn expansion(pairs: Seq<(Version, Version)>) -> Seq<Version>
    decreases pairs.len(),
{
    if pairs.len() == 0 {
        Seq::empty()
    } else {
        expansion(pairs.drop_last()) + range_versions(pairs.last().0, pairs.last().1)
    }
}

/// The number of versions in the ranges, each range counted by itself.
pub open spec fn span(pairs: Seq<(Version, Version)>) -> nat
    decreases pairs.len(),
{
    if pairs.len() == 0 {
        0
    } else {
        span(pairs.drop_last()) + range_versions(pairs.last().0, pairs.last().1).len()
    }
}

/// The expansion has as many versions as `span` counts.
pub proof fn lemma_expansion_len(pairs: Seq<(Version, Version)>)
    ensures
        expansion(pairs).len() == span(pairs),
    decreases pairs.len(),
{
    if pairs.len() > 0 {
        lemma_expansion_len(pairs.drop_last());
    }
}

/// A set of ranges contains a version exactly if the version occurs in its
/// expansion.
pub proof fn lemma_covers_iff_expanded(pairs: Seq<(Version, Version)>, version: Version)
    ensures
        covers(pairs, version) <==> expansion(pairs).contains(version),
    decreases pairs.len(),
{
    if pairs.len() > 0 {
        let head = pairs.drop_last();
        let (low, high) = pairs.last();
        let tail = range_versions(low, high);
        lemma_covers_iff_expanded(head, version);
        let all = expansion(pairs);
        if covers(pairs, version) {
            let i = choose|i: int| 0 <= i < pairs.len() && (#[trigger] pairs[i]).0 <= version
                <= pairs[i].1;
            if i < head.len() {
                assert(head[i] == pairs[i]);
                assert(covers(head, version));
                let k = choose|k: int| 0 <= k < expansion(head).len() && expansion(head)[k]
                    == version;
                assert(all[k] == version);
            } else {
                assert(tail[version - low] == version);
                assert(all[expansion(head).len() + version - low] == version);
            }
        }
        if all.contains(version) {
            let k = choose|k: int| 0 <= k < all.len() && all[k] == version;
            if k < expansion(head).len() {
                assert(expansion(head)[k] == version);
                assert(expansion(head).contains(version));
                let i = choose|i: int| 0 <= i < head.len() && (#[trigger] head[i]).0 <= version
                    <= head[i].1;
                assert(pairs[i] == head[i]);
            } else {
                assert(tail[k - expansion(head).len()] == version);
                assert(pairs[pairs.len() - 1].0 <= version <= pairs[pairs.len() - 1].1);
            }
        }
    }
}

/// Sorting pairs and dropping duplicates changes nothing about which
/// versions their ranges contain.
pub proof fn lemma_sorted_covers(
    sorted: Seq<(Version, Version)>,
    pairs: Seq<(Version, Version)>,
    version: Version,
)
    requires
        forall|p: (Version, Version)| sorted.contains(p) <==> pairs.contains(p),
    ensures
        covers(sorted, version) <==> covers(pairs, version),
{
    if covers(sorted, version) {
        let i = choose|i: int| 0 <= i < sorted.len() && (#[trigger] sorted[i]).0 <= version
            <= sorted[i].1;
        assert(sorted.contains(sorted[i]));
        let j = choose|j: int| 0 <= j < pairs.len() && pairs[j] == sorted[i];
        assert(pairs[j].0 <= version <= pairs[j].1);
    }
    if covers(pairs, version) {
        let i = choose|i: int| 0 <= i < pairs.len() && (#[trigger] pairs[i]).0 <= version
            <= pairs[i].1;
        assert(pairs.contains(pairs[i]));
        let j = choose|j: int| 0 <= j < sorted.len() && sorted[j] == pairs[i];
        assert(sorted[j].0 <= version <= sorted[j].1);
    }
}

// ---------------------------------------------------------------------------
// The type
// ---------------------------------------------------------------------------
/// A set of versions, held as `(low, high)` pairs of inclusive ranges. The
/// pairs are well formed and strictly ascending; the view is the sequence of
/// pairs.
#[derive(Debug, Hash)]
pub struct ProtoSet {
    pairs: Vec<(Version, Version)>,
}

impl View for ProtoSet {
    type V = Seq<(Version, Version)>;

    closed spec fn view(&self) -> Seq<(Version, Version)> {
        self.pairs@
    }
}

/// The view of a set that was built, or the error that kept it from being
/// built.
pub open spec fn built(r: Result<ProtoSet, ProtoverError>) -> Result<
    Seq<(Version, Version)>,
    ProtoverError,
> {
    match r {
        Ok(set) => Ok(set@),
        Err(e) => Err(e),
    }
}

impl Default for ProtoSet {
    /// The empty set.
    fn default() -> (r: ProtoSet)
        ensures
            r@ == Seq::<(Version, Version)>::empty(),
    {
        ProtoSet { pairs: Vec::new() }
    }
}

impl Clone for ProtoSet {
    fn clone(&self) -> (r: ProtoSet)
        ensures
            r@ == self@,
    {
        proof {
            use_type_invariant(self);
        }
        let mut pairs: Vec<(Version, Version)> = Vec::with_capacity(self.pairs.len());
        let mut i: usize = 0;
        while i < self.pairs.len()
            invariant
                i <= self.pairs.len(),
                pairs@ == self.pairs@.take(i as int),
            decreases self.pairs.len() - i,
        {
            pairs.push(self.pairs[i]);
            i += 1;
        }
        assert(pairs@ == self.pairs@);
        ProtoSet { pairs }
    }
}

impl PartialEq for ProtoSet {
    /// Two sets are equal when they hold the same pairs.
    fn eq(&self, other: &ProtoSet) -> (r: bool) {
        if self.pairs.len() != other.pairs.len() {
            return false;
        }
        let mut i: usize = 0;
        while i < self.pairs.len()
            invariant
                i <= self.pairs.len(),
                self.pairs.len() == other.pairs.len(),
                self.pairs@.take(i as int) == other.pairs@.take(i as int),
            decreases self.pairs.len() - i,
        {
            let (a, b) = (self.pairs[i], other.pairs[i]);
            if a.0 != b.0 || a.1 != b.1 {
                return false;
            }
            assert(self.pairs@.take(i + 1) == self.pairs@.take(i as int).push(a));
            assert(other.pairs@.take(i + 1) == other.pairs@.take(i as int).push(b));
            i += 1;
        }
        assert(self.pairs@ == self.pairs@.take(i as int));
        assert(other.pairs@ == other.pairs@.take(i as int));
        true
    }
}

impl PartialEqSpecImpl for ProtoSet {
    open spec fn obeys_eq_spec() -> bool {
        true
    }

    open spec fn eq_spec(&self, other: &ProtoSet) -> bool {
        self@ == other@
    }
}

impl Eq for ProtoSet {

}

impl ProtoSet {
    /// The pairs of a set are canonical at all times.
    #[verifier::type_invariant]
    spec fn holds_canonical_pairs(&self) -> bool {
        canonical(self.pairs@)
    }

    /// Builds a set from pairs in any order, with or without duplicates: the
    /// pairs are sorted, duplicates are dropped, and the outcome is validated.
    pub fn from_slice(low_high_pairs: &[(Version, Version)]) -> (r: Result<ProtoSet, ProtoverError>)
        ensures
            built(r) == validated(sorted_pairs(low_high_pairs@)),
            r is Ok ==> canonical(r->Ok_0@),
            r is Ok ==> forall|v: Version|
                #![trigger covers(r->Ok_0@, v)]
                covers(r->Ok_0@, v) <==> covers(low_high_pairs@, v),
    {
        let pairs = sort_dedup(low_high_pairs);
        proof {
            assert forall|v: Version| covers(pairs@, v) <==> covers(low_high_pairs@, v) by {
                lemma_sorted_covers(pairs@, low_high_pairs@, v);
            }
        }
        ProtoSet::from_sorted(pairs)
    }

    /// Validates pairs that are already sorted and free of duplicates.
    fn from_sorted(pairs: Vec<(Version, Version)>) -> (r: Result<ProtoSet, ProtoverError>)
        requires
            strictly_ascending(pairs@),
        ensures
            built(r) == validated(pairs@),
            r is Ok ==> canonical(r->Ok_0@),
    {
        let mut last_high: Version = 0;
        let mut i: usize = 0;
        while i < pairs.len()
            invariant
                i <= pairs.len(),
                i > 0 ==> last_high == pairs@[i - 1].1,
                forall|j: int| 0 <= j < i ==> defect_at(pairs@, j) is None,
            decreases pairs.len() - i,
        {
            let (low, high) = pairs[i];
            if low == u32::MAX || high == u32::MAX {
                proof {
                    lemma_validated_err(pairs@, i as int);
                }
                return Err(ProtoverError::ExceedsMax);
            }
            if i > 0 && low <= last_high {
                proof {
                    lemma_validated_err(pairs@, i as int);
                }
                return Err(ProtoverError::Overlap);
            } else if low > high {
                proof {
                    lemma_validated_err(pairs@, i as int);
                }
                return Err(ProtoverError::LowGreaterThanHigh);
            }
            last_high = high;
            i += 1;
        }
        Ok(ProtoSet { pairs })
    }

    /// The pairs of this set, in ascending order.
    pub fn iter(&self) -> (r: &[(Version, Version)])
        ensures
            r@ == self@,
            canonical(r@),
    {
        proof {
            use_type_invariant(self);
        }
        self.pairs.as_slice()
    }

    /// Every version in this set, each once, in ascending order: each range
    /// written out in full.
    pub fn expand(&self) -> (r: Vec<Version>)
        ensures
            r@ == expansion(self@),
            ascending(r@),
            !r@.contains(u32::MAX),
    {
        proof {
            use_type_invariant(self);
            lemma_expansion_below_max(self@);
            lemma_expansion_ascending(self@);
        }
        let mut out: Vec<Version> = Vec::new();
        let mut i: usize = 0;
        while i < self.pairs.len()
            invariant
                i <= self.pairs.len(),
                canonical(self.pairs@),
                out@ == expansion(self.pairs@.take(i as int)),
            decreases self.pairs.len() - i,
        {
            let (low, high) = self.pairs[i];
            assert(defect_at(self.pairs@, i as int) is None);
            let ghost before = out@;
            let mut v: Version = low;
            while v <= high
                invariant
                    low <= v <= high + 1,
                    high < u32::MAX,
                    out@ == before + range_versions(low, high).take(v - low),
                decreases high + 1 - v,
            {
                proof {
                    let all = range_versions(low, high);
                    assert(all.take(v - low + 1) == all.take(v - low).push(v));
                }
                out.push(v);
                v += 1;
            }
            proof {
                let all = range_versions(low, high);
                assert(all.take(all.len() as int) == all);
                let head = self.pairs@.take(i + 1);
                assert(head.drop_last() == self.pairs@.take(i as int));
                assert(head.last() == (low, high));
            }
            i += 1;
        }
        assert(self.pairs@.take(i as int) == self.pairs@);
        out
    }

    /// The number of versions in this set: the sum of `high - low + 1` over
    /// its ranges.
    pub fn len(&self) -> (r: usize)
        ensures
            r == span(self@),
            r == expansion(self@).len(),
            r <= u32::MAX,
    {
        proof {
            use_type_invariant(self);
            lemma_span_bound(self@);
            lemma_expansion_len(self@);
        }
        let mut length: usize = 0;
        let mut i: usize = 0;
        while i < self.pairs.len()
            invariant
                i <= self.pairs.len(),
                canonical(self.pairs@),
                span(self.pairs@) <= usize::MAX,
                length == span(self.pairs@.take(i as int)),
            decreases self.pairs.len() - i,
        {
            let (low, high) = self.pairs[i];
            proof {
                assert(defect_at(self.pairs@, i as int) is None);
                let head = self.pairs@.take(i + 1);
                assert(head.drop_last() == self.pairs@.take(i as int));
                assert(head.last() == (low, high));
                lemma_span_prefix(self.pairs@, i + 1);
            }
            length += (high - low) as usize + 1;
            i += 1;
        }
        assert(self.pairs@.take(i as int) == self.pairs@);
        length
    }

    /// Whether this set has more than `limit` versions. It stops counting
    /// once it knows.
    pub fn len_exceeds(&self, limit: usize) -> (r: bool)
        ensures
            r == (span(self@) > limit),
    {
        proof {
            use_type_invariant(self);
        }
        let mut length: usize = 0;
        let mut i: usize = 0;
        while i < self.pairs.len()
            invariant
                i <= self.pairs.len(),
                canonical(self.pairs@),
                length == span(self.pairs@.take(i as int)),
                length <= limit,
            decreases self.pairs.len() - i,
        {
            let (low, high) = self.pairs[i];
            proof {
                assert(defect_at(self.pairs@, i as int) is None);
                let head = self.pairs@.take(i + 1);
                assert(head.drop_last() == self.pairs@.take(i as int));
                assert(head.last() == (low, high));
                lemma_span_prefix(self.pairs@, i + 1);
            }
            let width: u32 = high - low;
            if width as usize >= limit - length {
                return true;
            }
            length += width as usize + 1;
            i += 1;
        }
        assert(self.pairs@.take(i as int) == self.pairs@);
        false
    }

    /// The version at place `index` of the expansion, counted from 0, or
    /// `None` if the expansion is not that long. This walks the ranges and
    /// writes nothing out.
    pub fn nth(&self, index: usize) -> (r: Option<Version>)
        ensures
            r == if index < span(self@) {
                Some(expansion(self@)[index as int])
            } else {
                None
            },
    {
        proof {
            use_type_invariant(self);
        }
        let mut skipped: usize = 0;
        let mut i: usize = 0;
        while i < self.pairs.len()
            invariant
                i <= self.pairs.len(),
                canonical(self.pairs@),
                skipped == span(self.pairs@.take(i as int)),
                skipped <= index,
            decreases self.pairs.len() - i,
        {
            let (low, high) = self.pairs[i];
            proof {
                assert(defect_at(self.pairs@, i as int) is None);
                let head = self.pairs@.take(i + 1);
                assert(head.drop_last() == self.pairs@.take(i as int));
                assert(head.last() == (low, high));
            }
            let width: u32 = high - low;
            if index - skipped <= width as usize {
                proof {
                    lemma_expansion_index(self.pairs@, i as int, index - skipped);
                }
                return Some(low + (index - skipped) as u32);
            }
            skipped += width as usize + 1;
            i += 1;
        }
        assert(self.pairs@.take(i as int) == self.pairs@);
        None
    }

    /// Whether this set holds no version at all.
    pub fn is_empty(&self) -> (r: bool)
        ensures
            r == (self@.len() == 0),
    {
        self.pairs.len() == 0
    }

    /// Whether `version` lies within one of the ranges of this set.
    pub fn contains(&self, version: Version) -> (r: bool)
        ensures
            r == covers(self@, version),
            r == expansion(self@).contains(version),
    {
        proof {
            lemma_covers_iff_expanded(self@, version);
        }
        let mut i: usize = 0;
        while i < self.pairs.len()
            invariant
                i <= self.pairs.len(),
                covers(self.pairs@, version) == expansion(self.pairs@).contains(version),
                forall|j: int| 0 <= j < i ==> !((#[trigger] self.pairs@[j]).0 <= version
                    <= self.pairs@[j].1),
            decreases self.pairs.len() - i,
        {
            let (low, high) = self.pairs[i];
            if low <= version && version <= high {
                return true;
            }
            i += 1;
        }
        false
    }
}

/// Where the versions of the range at `i` stand in the expansion: after the
/// versions of the ranges before it.
pub proof fn lemma_expansion_index(pairs: Seq<(Version, Version)>, i: int, k: int)
    requires
        0 <= i < pairs.len(),
        0 <= k <= pairs[i].1 - pairs[i].0,
    ensures
        span(pairs.take(i)) + k < span(pairs),
        expansion(pairs)[span(pairs.take(i)) + k] == pairs[i].0 + k,
    decreases pairs.len(),
{
    let head = pairs.drop_last();
    lemma_expansion_len(head);
    if i == pairs.len() - 1 {
        assert(pairs.take(i) == head);
        assert(range_versions(pairs[i].0, pairs[i].1)[k] == pairs[i].0 + k);
    } else {
        assert(head.take(i) == pairs.take(i));
        assert(head[i] == pairs[i]);
        lemma_expansion_index(head, i, k);
    }
}

/// Canonical pairs count no more versions than lie between the start of
/// the first range and the end of the last: at most `u32::MAX`, so that the
/// count fits in `usize`.
pub proof fn lemma_span_bound(pairs: Seq<(Version, Version)>)
    requires
        canonical(pairs),
    ensures
        span(pairs) <= u32::MAX,
        span(pairs) <= usize::MAX,
        pairs.len() > 0 ==> span(pairs) <= pairs.last().1 - pairs[0].0 + 1,
    decreases pairs.len(),
{
    if pairs.len() > 0 {
        let head = pairs.drop_last();
        let n = pairs.len() - 1;
        assert(defect_at(pairs, n) is None);
        assert(canonical(head)) by {
            assert forall|i: int| 0 <= i < head.len() implies defect_at(head, i) is None by {
                assert(defect_at(pairs, i) is None);
            }
            assert forall|i: int, j: int| 0 <= i < j < head.len() implies pair_lt(
                head[i],
                head[j],
            ) by {
                assert(pair_lt(pairs[i], pairs[j]));
            }
        }
        lemma_span_bound(head);
        if head.len() > 0 {
            assert(head.last() == pairs[n - 1]);
            assert(head[0] == pairs[0]);
        }
    }
}

/// The expansion of canonical pairs is strictly ascending: no version
/// occurs twice.
pub proof fn lemma_expansion_ascending(pairs: Seq<(Version, Version)>)
    requires
        canonical(pairs),
    ensures
        ascending(expansion(pairs)),
    decreases pairs.len(),
{
    if pairs.len() > 0 {
        let head = pairs.drop_last();
        let n = pairs.len() - 1;
        let (low, high) = pairs.last();
        assert(defect_at(pairs, n) is None);
        assert(canonical(head)) by {
            assert forall|i: int| 0 <= i < head.len() implies defect_at(head, i) is None by {
                assert(defect_at(pairs, i) is None);
            }
            assert forall|i: int, j: int| 0 <= i < j < head.len() implies pair_lt(
                head[i],
                head[j],
            ) by {
                assert(pair_lt(pairs[i], pairs[j]));
            }
        }
        lemma_expansion_ascending(head);
        let first = expansion(head);
        let second = range_versions(low, high);
        let all = expansion(pairs);
        assert forall|a: int, b: int| 0 <= a < b < all.len() implies all[a] < all[b] by {
            if b < first.len() {
                assert(first[a] < first[b]);
            } else if a >= first.len() {
                assert(all[a] == second[a - first.len()]);
                assert(all[b] == second[b - first.len()]);
            } else {
                // a version of an earlier range is below the last range
                assert(first.contains(first[a]));
                lemma_covers_iff_expanded(head, first[a]);
                let i = choose|i: int| 0 <= i < head.len() && (#[trigger] head[i]).0 <= first[a]
                    <= head[i].1;
                assert(head[i] == pairs[i]);
                lemma_well_formed_disjoint(pairs, i, n);
                assert(all[b] == second[b - first.len()]);
            }
        }
    }
}

/// What a prefix of the pairs counts is at most what all of them count.
pub proof fn lemma_span_prefix(pairs: Seq<(Version, Version)>, k: int)
    requires
        0 <= k <= pairs.len(),
    ensures
        span(pairs.take(k)) <= span(pairs),
    decreases pairs.len(),
{
    if k == pairs.len() {
        assert(pairs.take(k) == pairs);
    } else {
        lemma_span_prefix(pairs.drop_last(), k);
        assert(pairs.drop_last().take(k) == pairs.take(k));
    }
}

// ---------------------------------------------------------------------------
// The text form
// ---------------------------------------------------------------------------
/// The pair that a token denotes: a number `v` stands for `(v, v)`, and two
/// numbers around the first hyphen stand for `(low, high)`. Anything else is
/// unparseable, and `u32::MAX` is not a version.
pub open spec fn parse_range(token: Seq<char>) -> Result<(Version, Version), ProtoverError> {
    if token.contains('-') {
        let i = index_of(token, '-');
        match (parse_u32(token.take(i)), parse_u32(token.skip(i + 1))) {
            (Some(low), Some(high)) => if low == u32::MAX || high == u32::MAX {
                Err(ProtoverError::ExceedsMax)
            } else {
                Ok((low, high))
            },
            _ => Err(ProtoverError::Unparseable),
        }
    } else {
        match parse_u32(token) {
            Some(v) => if v == u32::MAX {
                Err(ProtoverError::ExceedsMax)
            } else {
                Ok((v, v))
            },
            None => Err(ProtoverError::Unparseable),
        }
    }
}

/// The pairs that the tokens denote, in order. Each token is trimmed; one
/// that is then empty is skipped. The first token that fails decides the
/// error.
pub open spec fn parse_ranges(tokens: Seq<Seq<char>>) -> Result<
    Seq<(Version, Version)>,
    ProtoverError,
>
    decreases tokens.len(),
{
    if tokens.len() == 0 {
        Ok(Seq::empty())
    } else {
        match parse_ranges(tokens.drop_last()) {
            Err(e) => Err(e),
            Ok(pairs) => {
                let token = trim(tokens.last());
                if token.len() == 0 {
                    Ok(pairs)
                } else {
                    match parse_range(token) {
                        Err(e) => Err(e),
                        Ok(pair) => Ok(pairs.push(pair)),
                    }
                }
            },
        }
    }
}

/// The set that a text denotes: its tokens are separated by commas, the
/// pairs they denote are sorted, duplicates are dropped, and the outcome is
/// validated.
pub open spec fn parse_version_set(text: Seq<char>) -> Result<
    Seq<(Version, Version)>,
    ProtoverError,
> {
    match parse_ranges(split(trim(text), ',')) {
        Err(e) => Err(e),
        Ok(pairs) => validated(sorted_pairs(pairs)),
    }
}

/// The pairs that the tokens of a text denote, as they stand in the text.
pub open spec fn listed_pairs(text: Seq<char>) -> Result<Seq<(Version, Version)>, ProtoverError> {
    parse_ranges(split(trim(text), ','))
}

/// How a range is written: a single version as a number, any other range as
/// `low-high`.
pub open spec fn range_text(pair: (Version, Version)) -> Seq<char> {
    if pair.0 == pair.1 {
        decimal(pair.0 as nat)
    } else {
        decimal(pair.0 as nat) + seq!['-'] + decimal(pair.1 as nat)
    }
}

/// How each of the ranges is written.
pub open spec fn range_texts(pairs: Seq<(Version, Version)>) -> Seq<Seq<char>> {
    Seq::new(pairs.len(), |i: int| range_text(pairs[i]))
}

/// How a set is written: its ranges in order, with commas between them.
pub open spec fn version_set_text(pairs: Seq<(Version, Version)>) -> Seq<char> {
    join(range_texts(pairs), ',')
}

/// Once a prefix of the tokens fails, all of them fail in the same way.
pub proof fn lemma_parse_ranges_fails(tokens: Seq<Seq<char>>, k: int)
    requires
        0 <= k <= tokens.len(),
        parse_ranges(tokens.take(k)) is Err,
    ensures
        parse_ranges(tokens) == parse_ranges(tokens.take(k)),
    decreases tokens.len(),
{
    if k == tokens.len() {
        assert(tokens.take(k) == tokens);
    } else {
        assert(tokens.drop_last().take(k) == tokens.take(k));
        lemma_parse_ranges_fails(tokens.drop_last(), k);
    }
}

/// Reads one trimmed, non-empty token.
fn read_range(token: &[char]) -> (r: Result<(Version, Version), ProtoverError>)
    ensures
        r == parse_range(token@),
{
    if has_char(token, '-') {
        let i = position(token, '-');
        proof {
            lemma_index_of(token@, '-');
        }
        assert(i < token.len());
        let low = read_u32(&token[0..i]);
        let high = read_u32(&token[i + 1..token.len()]);
        match (low, high) {
            (Some(lo), Some(hi)) => {
                if lo == u32::MAX || hi == u32::MAX {
                    Err(ProtoverError::ExceedsMax)
                } else {
                    Ok((lo, hi))
                }
            },
            _ => Err(ProtoverError::Unparseable),
        }
    } else {
        match read_u32(token) {
            Some(v) => {
                if v == u32::MAX {
                    Err(ProtoverError::ExceedsMax)
                } else {
                    Ok((v, v))
                }
            },
            None => Err(ProtoverError::Unparseable),
        }
    }
}

impl ProtoSet {
    /// Reads a set from text such as `"3-5,8"`: tokens separated by commas,
    /// each a number or two numbers joined by a hyphen. Whitespace around a
    /// token is ignored and so is an empty token, so that `""` and `",,,"`
    /// both give the empty set. The ranges may come in any order, but no
    /// version may lie in two different ranges.
    pub fn from_str(version_string: &str) -> (r: Result<ProtoSet, ProtoverError>)
        ensures
            built(r) == parse_version_set(version_string@),
            r is Ok ==> canonical(r->Ok_0@),
            r is Ok ==> listed_pairs(version_string@) is Ok && forall|v: Version|
                #![trigger covers(r->Ok_0@, v)]
                covers(r->Ok_0@, v) <==> covers(listed_pairs(version_string@)->Ok_0, v),
    {
        let chars = to_chars(version_string);
        ProtoSet::from_chars(chars.as_slice())
    }

    /// Reads a set from the characters of a text, as `from_str` does.
    pub fn from_chars(version_string: &[char]) -> (r: Result<ProtoSet, ProtoverError>)
        ensures
            built(r) == parse_version_set(version_string@),
            r is Ok ==> canonical(r->Ok_0@),
            r is Ok ==> listed_pairs(version_string@) is Ok && forall|v: Version|
                #![trigger covers(r->Ok_0@, v)]
                covers(r->Ok_0@, v) <==> covers(listed_pairs(version_string@)->Ok_0, v),
    {
        let pieces = split_at_char(trimmed(version_string), ',');
        let ghost tokens = split(trim(version_string@), ',');
        let mut pairs: Vec<(Version, Version)> = Vec::new();
        let mut k: usize = 0;
        assert(tokens.take(0) == Seq::<Seq<char>>::empty());
        while k < pieces.len()
            invariant
                k <= pieces.len(),
                views(pieces@) == tokens,
                tokens == split(trim(version_string@), ','),
                parse_ranges(tokens.take(k as int)) == Ok::<_, ProtoverError>(pairs@),
            decreases pieces.len() - k,
        {
            let token = trimmed(pieces[k].as_slice());
            proof {
                let seen = tokens.take(k + 1);
                assert(seen.drop_last() == tokens.take(k as int));
                assert(seen.last() == pieces@[k as int]@);
            }
            if token.len() > 0 {
                match read_range(token) {
                    Ok(pair) => {
                        pairs.push(pair);
                    },
                    Err(e) => {
                        proof {
                            assert(parse_ranges(tokens.take(k + 1)) == Err::<
                                Seq<(Version, Version)>,
                                _,
                            >(e));
                            lemma_parse_ranges_fails(tokens, k + 1);
                        }
                        return Err(e);
                    },
                }
            }
            k += 1;
        }
        assert(tokens.take(k as int) == tokens);
        ProtoSet::from_slice(pairs.as_slice())
    }

    /// Writes the set as text: the ranges in ascending order with commas
    /// between them, a single version as a number and any other range as
    /// `low-high`.
    pub fn to_string(&self) -> (r: String)
        ensures
            r@ == version_set_text(self@),
    {
        let out = self.to_chars();
        to_text(out.as_slice())
    }

    /// The characters of `to_string`.
    pub fn to_chars(&self) -> (r: Vec<char>)
        ensures
            r@ == version_set_text(self@),
    {
        let mut out: Vec<char> = Vec::new();
        let mut i: usize = 0;
        assert(range_texts(self.pairs@.take(0)) == Seq::<Seq<char>>::empty());
        while i < self.pairs.len()
            invariant
                i <= self.pairs.len(),
                out@ == version_set_text(self.pairs@.take(i as int)),
            decreases self.pairs.len() - i,
        {
            let (low, high) = self.pairs[i];
            proof {
                let done = range_texts(self.pairs@.take(i as int));
                assert(range_texts(self.pairs@.take(i + 1)) == done.push(range_text((low, high))));
                lemma_join_push(done, range_text((low, high)), ',');
            }
            if i > 0 {
                out.push(',');
            }
            push_decimal(&mut out, low);
            if low != high {
                out.push('-');
                push_decimal(&mut out, high);
            }
            assert(out@ == version_set_text(self.pairs@.take(i + 1)));
            i += 1;
        }
        assert(self.pairs@.take(i as int) == self.pairs@);
        out
    }
}

/// What `range_text` writes for a pair without `u32::MAX` is not empty, is
/// made of digits and at most one hyphen, begins and ends with a digit, and
/// reads back as the pair.
pub proof fn lemma_range_text(pair: (Version, Version))
    requires
        pair.0 != u32::MAX,
        pair.1 != u32::MAX,
    ensures
        range_text(pair).len() > 0,
        is_digit(range_text(pair)[0]),
        is_digit(range_text(pair).last()),
        !range_text(pair).contains(','),
        trim(range_text(pair)) == range_text(pair),
        parse_range(range_text(pair)) == Ok::<_, ProtoverError>(pair),
{
    let (low, high) = pair;
    let text = range_text(pair);
    let (a, b) = (decimal(low as nat), decimal(high as nat));
    lemma_decimal(low as nat);
    lemma_decimal(high as nat);
    lemma_parse_decimal(low);
    lemma_parse_decimal(high);
    assert(is_digit(a[0]) && is_digit(a.last()));
    assert(is_digit(b[0]) && is_digit(b.last()));
    if low == high {
        assert(text == a);
        if text.contains('-') {
            let k = choose|k: int| 0 <= k < text.len() && text[k] == '-';
            assert(is_digit(a[k]));
        }
        if text.contains(',') {
            let k = choose|k: int| 0 <= k < text.len() && text[k] == ',';
            assert(is_digit(a[k]));
        }
    } else {
        let n = a.len() as int;
        assert(text[n] == '-');
        assert(text.contains('-'));
        assert forall|j: int| 0 <= j < n implies text[j] != '-' by {
            assert(text[j] == a[j]);
            assert(is_digit(a[j]));
        }
        lemma_index_of_is(text, '-', n);
        assert(text.take(n) == a);
        assert(text.skip(n + 1) == b);
        assert(text[0] == a[0]);
        assert(text.last() == b.last());
        if text.contains(',') {
            let k = choose|k: int| 0 <= k < text.len() && text[k] == ',';
            if k < n {
                assert(is_digit(a[k]));
            } else if k > n {
                assert(text[k] == b[k - n - 1]);
                assert(is_digit(b[k - n - 1]));
            }
        }
    }
    lemma_trim_identity(text);
}

/// The texts of pairs without `u32::MAX` read back as the pairs.
pub proof fn lemma_parse_range_texts(pairs: Seq<(Version, Version)>)
    requires
        forall|i: int|
            0 <= i < pairs.len() ==> (#[trigger] pairs[i]).0 != u32::MAX && pairs[i].1 != u32::MAX,
    ensures
        parse_ranges(range_texts(pairs)) == Ok::<_, ProtoverError>(pairs),
    decreases pairs.len(),
{
    let texts = range_texts(pairs);
    if pairs.len() == 0 {
        assert(pairs == Seq::<(Version, Version)>::empty());
    } else {
        let head = pairs.drop_last();
        assert forall|i: int| 0 <= i < head.len() implies (#[trigger] head[i]).0 != u32::MAX
            && head[i].1 != u32::MAX by {
            assert(head[i] == pairs[i]);
        }
        lemma_parse_range_texts(head);
        assert(texts.drop_last() == range_texts(head));
        assert(texts.last() == range_text(pairs.last()));
        assert(pairs[pairs.len() - 1] == pairs.last());
        lemma_range_text(pairs.last());
        assert(head.push(pairs.last()) == pairs);
    }
}

/// Writing a set and reading the text back gives the same set; so the text
/// of a set, read and written again, is the same text.
pub proof fn lemma_text_round_trip(pairs: Seq<(Version, Version)>)
    requires
        canonical(pairs),
    ensures
        parse_version_set(version_set_text(pairs)) == Ok::<_, ProtoverError>(pairs),
{
    let texts = range_texts(pairs);
    let text = version_set_text(pairs);
    assert forall|i: int| 0 <= i < pairs.len() implies (#[trigger] pairs[i]).0 != u32::MAX
        && pairs[i].1 != u32::MAX by {
        assert(defect_at(pairs, i) is None);
    }
    lemma_parse_range_texts(pairs);
    lemma_sorted_pairs_is(pairs, pairs);
    if pairs.len() == 0 {
        assert(text == Seq::<char>::empty());
        assert(trim(text) == text);
        lemma_index_of(text, ',');
        let tokens = split(text, ',');
        assert(tokens == seq![text]);
        assert(tokens.drop_last() == Seq::<Seq<char>>::empty());
        assert(parse_ranges(tokens.drop_last()) == Ok::<_, ProtoverError>(
            Seq::<(Version, Version)>::empty(),
        ));
        assert(trim(tokens.last()).len() == 0);
        assert(parse_ranges(tokens) == Ok::<_, ProtoverError>(Seq::<(Version, Version)>::empty()));
        assert(pairs == Seq::<(Version, Version)>::empty());
    } else {
        assert forall|i: int| 0 <= i < texts.len() implies (#[trigger] texts[i]).len() > 0
            && !texts[i].contains(',') by {
            lemma_range_text(pairs[i]);
        }
        lemma_split_join(texts, ',');
        lemma_join_ends(texts, ',');
        lemma_range_text(pairs[0]);
        lemma_range_text(pairs.last());
        assert(texts[0] == range_text(pairs[0]));
        assert(texts.last() == range_text(pairs.last()));
        lemma_trim_identity(text);
    }
}

// ---------------------------------------------------------------------------
// The shortest way to write a set of versions
// ---------------------------------------------------------------------------
/// The ranges are as few as can be: none is empty or reaches `u32::MAX`, and
/// each begins more than one above the end of the range before it, so that
/// no two of them could be merged.
pub open spec fn coalesced(pairs: Seq<(Version, Version)>) -> bool {
    &&& forall|i: int| 0 <= i < pairs.len() ==> (#[trigger] pairs[i]).0 <= pairs[i].1 < u32::MAX
    &&& forall|i: int| 0 < i < pairs.len() ==> pairs[i - 1].1 + 1 < (#[trigger] pairs[i]).0
}

/// The ranges contain the versions of `versions` and no others.
pub open spec fn holds_exactly(pairs: Seq<(Version, Version)>, versions: Set<Version>) -> bool {
    forall|v: Version|
        #![trigger covers(pairs, v)]
        #![trigger versions.contains(v)]
        covers(pairs, v) <==> versions.contains(v)
}

/// The coalesced ranges that contain exactly the versions of `versions`.
pub open spec fn ranges_of(versions: Set<Version>) -> Seq<(Version, Version)> {
    choose|pairs: Seq<(Version, Version)>| coalesced(pairs) && holds_exactly(pairs, versions)
}

/// In coalesced ranges, a later range begins more than one above the end of
/// any earlier one.
pub proof fn lemma_coalesced_gap(pairs: Seq<(Version, Version)>, i: int, j: int)
    requires
        coalesced(pairs),
        0 <= i < j < pairs.len(),
    ensures
        pairs[i].1 + 1 < pairs[j].0,
    decreases j - i,
{
    assert(pairs[j - 1].1 + 1 < pairs[j].0);
    if i < j - 1 {
        lemma_coalesced_gap(pairs, i, j - 1);
        assert(pairs[j - 1].0 <= pairs[j - 1].1);
    }
}

/// Coalesced ranges are canonical.
pub proof fn lemma_coalesced_canonical(pairs: Seq<(Version, Version)>)
    requires
        coalesced(pairs),
    ensures
        canonical(pairs),
{
    assert forall|i: int| 0 <= i < pairs.len() implies defect_at(pairs, i) is None by {
        assert(pairs[i].0 <= pairs[i].1 < u32::MAX);
        if i > 0 {
            assert(pairs[i - 1].1 + 1 < pairs[i].0);
        }
    }
    assert forall|i: int, j: int| 0 <= i < j < pairs.len() implies pair_lt(pairs[i], pairs[j]) by {
        lemma_coalesced_gap(pairs, i, j);
        assert(pairs[i].0 <= pairs[i].1);
    }
}

/// Without their last range, coalesced ranges are still coalesced, and
/// contain what they contained below that range.
proof fn lemma_coalesced_drop_last(pairs: Seq<(Version, Version)>)
    requires
        coalesced(pairs),
        pairs.len() > 0,
    ensures
        coalesced(pairs.drop_last()),
        forall|v: Version|
            #![trigger covers(pairs.drop_last(), v)]
            #![trigger covers(pairs, v)]
            covers(pairs.drop_last(), v) <==> covers(pairs, v) && v < pairs.last().0,
{
    let head = pairs.drop_last();
    let n = pairs.len() - 1;
    assert forall|i: int| 0 <= i < head.len() implies (#[trigger] head[i]).0 <= head[i].1
        < u32::MAX by {
        assert(head[i] == pairs[i]);
    }
    assert forall|i: int| 0 < i < head.len() implies head[i - 1].1 + 1 < (#[trigger] head[i]).0 by {
        assert(pairs[i - 1].1 + 1 < pairs[i].0);
    }
    assert forall|v: Version| covers(head, v) <==> covers(pairs, v) && v < pairs.last().0 by {
        if covers(head, v) {
            let i = choose|i: int| 0 <= i < head.len() && (#[trigger] head[i]).0 <= v <= head[i].1;
            assert(pairs[i] == head[i]);
            lemma_coalesced_gap(pairs, i, n);
        }
        if covers(pairs, v) && v < pairs.last().0 {
            let i = choose|i: int| 0 <= i < pairs.len() && (#[trigger] pairs[i]).0 <= v
                <= pairs[i].1;
            assert(head[i] == pairs[i]);
        }
    }
}

/// What coalesced ranges contain is at most the end of their last range,
/// and more than one below the start of that range if it is below it.
proof fn lemma_covered_by_coalesced(pairs: Seq<(Version, Version)>, v: Version)
    requires
        coalesced(pairs),
        covers(pairs, v),
    ensures
        pairs.len() > 0,
        v <= pairs.last().1,
        v < pairs.last().0 ==> v + 1 < pairs.last().0,
{
    let n = pairs.len() - 1;
    let i = choose|i: int| 0 <= i < pairs.len() && (#[trigger] pairs[i]).0 <= v <= pairs[i].1;
    if i < n {
        lemma_coalesced_gap(pairs, i, n);
    }
}

/// Coalesced ranges contain both ends of their last range, and every
/// version in between.
proof fn lemma_covers_last(pairs: Seq<(Version, Version)>, v: Version)
    requires
        coalesced(pairs),
        pairs.len() > 0,
        pairs.last().0 <= v <= pairs.last().1,
    ensures
        covers(pairs, v),
{
    let n = pairs.len() - 1;
    assert(pairs[n].0 <= v <= pairs[n].1);
}

/// Coalesced ranges that contain the same versions have the same last
/// range.
proof fn lemma_coalesced_same_last(a: Seq<(Version, Version)>, b: Seq<(Version, Version)>)
    requires
        coalesced(a),
        coalesced(b),
        a.len() > 0,
        forall|v: Version| #![trigger covers(a, v)] #![trigger covers(b, v)] covers(a, v) <==> covers(b, v),
    ensures
        b.len() > 0,
        a.last() == b.last(),
{
    let (la, ha) = a.last();
    assert(la <= ha) by {
        assert(a[a.len() - 1].0 <= a[a.len() - 1].1);
    }
    lemma_covers_last(a, ha);
    assert(covers(b, ha));
    lemma_covered_by_coalesced(b, ha);
    let (lb, hb) = b.last();
    assert(lb <= hb) by {
        assert(b[b.len() - 1].0 <= b[b.len() - 1].1);
    }
    lemma_covers_last(b, hb);
    assert(covers(a, hb));
    lemma_covered_by_coalesced(a, hb);
    assert(ha == hb);
    if la < lb {
        let x = (lb - 1) as Version;
        lemma_covers_last(a, x);
        assert(covers(b, x));
        lemma_covered_by_coalesced(b, x);
    }
    if lb < la {
        let x = (la - 1) as Version;
        lemma_covers_last(b, x);
        assert(covers(a, x));
        lemma_covered_by_coalesced(a, x);
    }
}

/// Coalesced ranges that contain the same versions are the same ranges.
pub proof fn lemma_coalesced_unique(a: Seq<(Version, Version)>, b: Seq<(Version, Version)>)
    requires
        coalesced(a),
        coalesced(b),
        forall|v: Version| #![trigger covers(a, v)] #![trigger covers(b, v)] covers(a, v) <==> covers(b, v),
    ensures
        a == b,
    decreases a.len(),
{
    if a.len() == 0 {
        if b.len() > 0 {
            assert(b[b.len() - 1].0 <= b[b.len() - 1].1);
            lemma_covers_last(b, b.last().0);
            assert(covers(a, b.last().0));
        }
        assert(a =~= b);
    } else {
        lemma_coalesced_same_last(a, b);
        lemma_coalesced_drop_last(a);
        lemma_coalesced_drop_last(b);
        let (a0, b0) = (a.drop_last(), b.drop_last());
        assert forall|v: Version| #![trigger covers(a0, v)] #![trigger covers(b0, v)] covers(a0, v) <==> covers(b0, v) by {
            assert(covers(a, v) <==> covers(b, v));
        }
        lemma_coalesced_unique(a0, b0);
        assert(a =~= a0.push(a.last()));
        assert(b =~= b0.push(b.last()));
    }
}

/// Coalesced ranges that contain exactly the versions of `versions` are
/// `ranges_of(versions)`.
pub proof fn lemma_ranges_of_is(pairs: Seq<(Version, Version)>, versions: Set<Version>)
    requires
        coalesced(pairs),
        holds_exactly(pairs, versions),
    ensures
        ranges_of(versions) == pairs,
{
    lemma_coalesced_unique(ranges_of(versions), pairs);
}

/// The coalesced ranges of the versions of `versions` that are below
/// `upto`, built up version by version.
pub open spec fn ranges_below(versions: Set<Version>, upto: nat) -> Seq<(Version, Version)>
    decreases upto,
{
    if upto == 0 {
        Seq::empty()
    } else {
        let v = (upto - 1) as Version;
        let before = ranges_below(versions, (upto - 1) as nat);
        if !versions.contains(v) {
            before
        } else if before.len() > 0 && before.last().1 + 1 == v {
            before.drop_last().push((before.last().0, v))
        } else {
            before.push((v, v))
        }
    }
}

/// `ranges_below` gives coalesced ranges that contain exactly the versions
/// of the set below `upto`.
pub proof fn lemma_ranges_below(versions: Set<Version>, upto: nat)
    requires
        upto <= u32::MAX,
    ensures
        coalesced(ranges_below(versions, upto)),
        ranges_below(versions, upto).len() > 0 ==> ranges_below(versions, upto).last().1 < upto,
        forall|x: Version|
            #![trigger covers(ranges_below(versions, upto), x)]
            covers(ranges_below(versions, upto), x) <==> x < upto && versions.contains(x),
    decreases upto,
{
    let now = ranges_below(versions, upto);
    if upto > 0 {
        let v = (upto - 1) as Version;
        let before = ranges_below(versions, (upto - 1) as nat);
        lemma_ranges_below(versions, (upto - 1) as nat);
        if !versions.contains(v) {
            assert forall|x: Version| #![trigger covers(now, x)] covers(now, x) <==> x < upto
                && versions.contains(x) by {
                assert(covers(before, x) <==> x < upto - 1 && versions.contains(x));
            }
        } else if before.len() > 0 && before.last().1 + 1 == v {
            let n = before.len() - 1;
            let low = before.last().0;
            assert(before[n].0 <= before[n].1);
            assert forall|i: int| 0 <= i < now.len() implies (#[trigger] now[i]).0 <= now[i].1
                < u32::MAX by {
                if i < n {
                    assert(now[i] == before[i]);
                }
            }
            assert forall|i: int| 0 < i < now.len() implies now[i - 1].1 + 1 < (
            #[trigger] now[i]).0 by {
                assert(now[i - 1] == before[i - 1]);
                assert(before[i - 1].1 + 1 < before[i].0);
            }
            assert forall|x: Version| #![trigger covers(now, x)] covers(now, x) <==> x < upto
                && versions.contains(x) by {
                assert(covers(before, x) <==> x < upto - 1 && versions.contains(x));
                if covers(now, x) {
                    let i = choose|i: int| 0 <= i < now.len() && (#[trigger] now[i]).0 <= x
                        <= now[i].1;
                    if i < n {
                        assert(before[i] == now[i]);
                        assert(covers(before, x));
                    } else if x < v {
                        assert(before[n].0 <= x <= before[n].1);
                        assert(covers(before, x));
                    }
                }
                if x < upto && versions.contains(x) {
                    if x == v {
                        assert(now[n].0 <= x <= now[n].1);
                    } else {
                        assert(covers(before, x));
                        let i = choose|i: int| 0 <= i < before.len() && (#[trigger] before[i]).0
                            <= x <= before[i].1;
                        if i < n {
                            assert(now[i] == before[i]);
                        } else {
                            assert(now[n].0 <= x <= now[n].1);
                        }
                    }
                }
            }
        } else {
            let n = before.len() as int;
            assert forall|i: int| 0 <= i < now.len() implies (#[trigger] now[i]).0 <= now[i].1
                < u32::MAX by {
                if i < n {
                    assert(now[i] == before[i]);
                }
            }
            assert forall|i: int| 0 < i < now.len() implies now[i - 1].1 + 1 < (
            #[trigger] now[i]).0 by {
                assert(now[i - 1] == before[i - 1]);
                if i < n {
                    assert(now[i] == before[i]);
                    assert(before[i - 1].1 + 1 < before[i].0);
                }
            }
            assert forall|x: Version| #![trigger covers(now, x)] covers(now, x) <==> x < upto
                && versions.contains(x) by {
                assert(covers(before, x) <==> x < upto - 1 && versions.contains(x));
                if covers(now, x) {
                    let i = choose|i: int| 0 <= i < now.len() && (#[trigger] now[i]).0 <= x
                        <= now[i].1;
                    if i < n {
                        assert(before[i] == now[i]);
                        assert(covers(before, x));
                    }
                }
                if x < upto && versions.contains(x) {
                    if x == v {
                        assert(now[n].0 <= x <= now[n].1);
                    } else {
                        assert(covers(before, x));
                        let i = choose|i: int| 0 <= i < before.len() && (#[trigger] before[i]).0
                            <= x <= before[i].1;
                        assert(now[i] == before[i]);
                    }
                }
            }
        }
    }
}

/// Every set of versions without `u32::MAX` has its coalesced ranges:
/// `ranges_of` is coalesced and contains exactly the versions of the set.
pub proof fn lemma_ranges_of(versions: Set<Version>)
    requires
        !versions.contains(u32::MAX),
    ensures
        coalesced(ranges_of(versions)),
        holds_exactly(ranges_of(versions), versions),
        ranges_of(versions) == ranges_below(versions, u32::MAX as nat),
{
    let built = ranges_below(versions, u32::MAX as nat);
    lemma_ranges_below(versions, u32::MAX as nat);
    assert(holds_exactly(built, versions)) by {
        assert forall|v: Version|
            #![trigger covers(built, v)]
            #![trigger versions.contains(v)]
            covers(built, v) <==> versions.contains(v) by {}
    }
    lemma_ranges_of_is(built, versions);
}

/// Each version is below all versions after it.
pub open spec fn ascending(versions: Seq<Version>) -> bool {
    forall|i: int, j: int| 0 <= i < j < versions.len() ==> versions[i] < versions[j]
}

/// Where the run that begins `list` ends: going through the list from its
/// first version, the run moves on to each version that is one above where
/// it stands.
pub open spec fn run_end(list: Seq<Version>) -> Version
    recommends
        list.len() > 0,
    decreases list.len(),
{
    if list.len() <= 1 {
        list[0]
    } else {
        let latest = run_end(list.drop_last());
        if latest + 1 == list.last() {
            list.last()
        } else {
            latest
        }
    }
}

/// In an ascending list the run is the longest prefix of consecutive
/// versions: it ends `run_end - first` places after the first version, holds
/// every version in between, and the version after it, if any, is more than
/// one above its end.
pub proof fn lemma_run_of_ascending(list: Seq<Version>)
    requires
        list.len() > 0,
        ascending(list),
    ensures
        list[0] <= run_end(list),
        run_end(list) - list[0] < list.len(),
        forall|j: int| 0 <= j <= run_end(list) - list[0] ==> #[trigger] list[j] == list[0] + j,
        run_end(list) - list[0] + 1 < list.len() ==> list[run_end(list) - list[0] + 1] > run_end(
            list,
        ) + 1,
    decreases list.len(),
{
    if list.len() > 1 {
        let head = list.drop_last();
        let n = list.len() as int;
        assert(ascending(head)) by {
            assert forall|i: int, j: int| 0 <= i < j < head.len() implies head[i] < head[j] by {
                assert(list[i] < list[j]);
            }
        }
        lemma_run_of_ascending(head);
        let latest = run_end(head);
        let k = latest - list[0];
        assert(head[0] == list[0]);
        assert(head[k] == list[k]);
        assert forall|j: int| 0 <= j <= k implies #[trigger] list[j] == list[0] + j by {
            assert(head[j] == list[j]);
        }
        if latest + 1 == list.last() {
            if k + 1 < n - 1 {
                assert(head[k + 1] == list[k + 1]);
                assert(list[k + 1] < list[n - 1]);
            }
            assert(k == n - 2);
        } else {
            if k + 1 < n - 1 {
                assert(head[k + 1] == list[k + 1]);
            } else {
                assert(list[n - 2] < list[n - 1]);
            }
        }
    }
}

/// The run of consecutive versions that begins `list`, as its first and
/// last version, or `None` for an empty list.
pub fn find_range(list: &[Version]) -> (r: Option<(Version, Version)>)
    ensures
        r == if list@.len() == 0 {
            None
        } else {
            Some((list@[0], run_end(list@)))
        },
{
    if list.len() == 0 {
        return None;
    }
    let first = list[0];
    let mut latest = first;
    let mut i: usize = 1;
    assert(list@.take(1).len() == 1 && list@.take(1)[0] == first);
    while i < list.len()
        invariant
            1 <= i <= list.len(),
            latest == run_end(list@.take(i as int)),
        decreases list.len() - i,
    {
        let n = list[i];
        proof {
            let seen = list@.take(i + 1);
            assert(seen.drop_last() == list@.take(i as int));
            assert(seen.last() == n);
        }
        if latest < u32::MAX && latest + 1 == n {
            latest = n;
        }
        i += 1;
    }
    assert(list@.take(i as int) == list@);
    Some((first, latest))
}

/// The versions of `versions` in ascending order, each once.
fn sorted_versions(versions: &[Version]) -> (r: Vec<Version>)
    ensures
        ascending(r@),
        forall|v: Version| r@.contains(v) <==> versions@.contains(v),
{
    let mut singles: Vec<(Version, Version)> = Vec::new();
    let mut i: usize = 0;
    while i < versions.len()
        invariant
            i <= versions.len(),
            singles.len() == i,
            forall|j: int| 0 <= j < i ==> singles@[j] == (versions@[j], versions@[j]),
        decreases versions.len() - i,
    {
        singles.push((versions[i], versions[i]));
        i += 1;
    }
    let sorted = sort_dedup(singles.as_slice());
    let mut out: Vec<Version> = Vec::new();
    let mut k: usize = 0;
    while k < sorted.len()
        invariant
            k <= sorted.len(),
            out.len() == k,
            forall|j: int| 0 <= j < k ==> out@[j] == sorted@[j].0,
        decreases sorted.len() - k,
    {
        out.push(sorted[k].0);
        k += 1;
    }
    proof {
        assert forall|j: int| 0 <= j < sorted.len() implies sorted@[j].1 == sorted@[j].0 by {
            assert(sorted@.contains(sorted@[j]));
            let m = choose|m: int| 0 <= m < singles.len() && singles@[m] == sorted@[j];
        }
        assert forall|a: int, b: int| 0 <= a < b < out.len() implies out@[a] < out@[b] by {
            assert(pair_lt(sorted@[a], sorted@[b]));
        }
        assert forall|v: Version| out@.contains(v) <==> versions@.contains(v) by {
            if out@.contains(v) {
                let j = choose|j: int| 0 <= j < out.len() && out@[j] == v;
                assert(sorted@.contains(sorted@[j]));
                let m = choose|m: int| 0 <= m < singles.len() && singles@[m] == sorted@[j];
                assert(versions@[m] == v);
            }
            if versions@.contains(v) {
                let m = choose|m: int| 0 <= m < versions@.len() && versions@[m] == v;
                assert(singles@[m] == (v, v));
                assert(singles@.contains((v, v)));
                let j = choose|j: int| 0 <= j < sorted.len() && sorted@[j] == (v, v);
                assert(out@[j] == v);
            }
        }
    }
    out
}

/// Whether the pairs are what coalescing makes of the first `done` versions
/// of `versions`: ranges with a gap between them that contain those versions
/// and no others, the last of them ending at the last of those versions.
spec fn coalesces(pairs: Seq<(Version, Version)>, versions: Seq<Version>, done: int) -> bool {
    &&& 0 <= done <= versions.len()
    &&& forall|i: int| 0 <= i < pairs.len() ==> (#[trigger] pairs[i]).0 <= pairs[i].1
    &&& forall|i: int| 0 < i < pairs.len() ==> pairs[i - 1].1 + 1 < (#[trigger] pairs[i]).0
    &&& pairs.len() > 0 ==> done > 0 && pairs.last().1 == versions[done - 1]
    &&& pairs.len() == 0 ==> done == 0
    &&& pairs.len() > 0 && done < versions.len() ==> pairs.last().1 + 1 < versions[done]
    &&& forall|v: Version|
        #![trigger covers(pairs, v)]
        #![trigger versions.take(done).contains(v)]
        covers(pairs, v) <==> versions.take(done).contains(v)
}

/// Joins each run of consecutive versions of an ascending list into one
/// range.
fn coalesce(versions: &Vec<Version>) -> (r: Vec<(Version, Version)>)
    requires
        ascending(versions@),
    ensures
        coalesces(r@, versions@, versions@.len() as int),
{
    let n = versions.len();
    let mut pairs: Vec<(Version, Version)> = Vec::new();
    let mut start: usize = 0;
    while start < n
        invariant
            n == versions.len(),
            ascending(versions@),
            coalesces(pairs@, versions@, start as int),
        decreases n - start,
    {
        let rest = &versions[start..n];
        let ghost vs = versions@;
        let ghost before = pairs@;
        proof {
            assert(rest@ == vs.subrange(start as int, n as int));
            assert(ascending(rest@)) by {
                assert forall|i: int, j: int| 0 <= i < j < rest@.len() implies rest@[i]
                    < rest@[j] by {
                    assert(vs[start + i] < vs[start + j]);
                }
            }
            lemma_run_of_ascending(rest@);
        }
        match find_range(rest) {
            Some((first, last)) => {
                let index = (last - first) as usize;
                pairs.push((first, last));
                proof {
                    let next = start + index + 1;
                    assert(first == vs[start as int]);
                    assert(rest@[index as int] == vs[start + index]);
                    assert(last == vs[start + index]);
                    assert(pairs@.last() == (first, last));
                    if next < n {
                        assert(rest@[index + 1] == vs[next as int]);
                    }
                    assert forall|i: int| 0 <= i < pairs@.len() implies (#[trigger] pairs@[i]).0
                        <= pairs@[i].1 by {
                        if i < before.len() {
                            assert(pairs@[i] == before[i]);
                        }
                    }
                    assert forall|i: int| 0 < i < pairs@.len() implies pairs@[i - 1].1 + 1 < (
                    #[trigger] pairs@[i]).0 by {
                        if i < before.len() {
                            assert(pairs@[i] == before[i]);
                            assert(pairs@[i - 1] == before[i - 1]);
                        } else {
                            assert(pairs@[i - 1] == before.last());
                        }
                    }
                    assert forall|v: Version|
                        #![trigger covers(pairs@, v)]
                        #![trigger vs.take(next).contains(v)]
                        covers(pairs@, v) <==> vs.take(next).contains(v) by {
                        if covers(pairs@, v) {
                            let i = choose|i: int| 0 <= i < pairs@.len() && (
                            #[trigger] pairs@[i]).0 <= v <= pairs@[i].1;
                            if i < before.len() {
                                assert(before[i] == pairs@[i]);
                                assert(covers(before, v));
                                let m = choose|m: int| 0 <= m < vs.take(start as int).len()
                                    && vs.take(start as int)[m] == v;
                                assert(vs.take(next)[m] == v);
                            } else {
                                let j = v - first;
                                assert(rest@[j] == first + j);
                                assert(vs.take(next)[start + j] == v);
                            }
                        }
                        if vs.take(next).contains(v) {
                            let m = choose|m: int| 0 <= m < vs.take(next).len() && vs.take(
                                next,
                            )[m] == v;
                            if m < start {
                                assert(vs.take(start as int)[m] == v);
                                assert(vs.take(start as int).contains(v));
                                assert(covers(before, v));
                                let i = choose|i: int| 0 <= i < before.len() && (
                                #[trigger] before[i]).0 <= v <= before[i].1;
                                assert(pairs@[i] == before[i]);
                            } else {
                                let j = m - start;
                                assert(rest@[j] == first + j);
                                assert(pairs@[before.len() as int].0 <= v
                                    <= pairs@[before.len() as int].1);
                            }
                        }
                    }
                }
                start = start + index + 1;
            },
            None => {
                return pairs;
            },
        }
    }
    pairs
}

/// What a set built from single versions holds: nothing if `u32::MAX` is
/// among them, since validation then fails; else the coalesced ranges that
/// contain exactly those versions.
pub open spec fn coalesced_versions(versions: Seq<Version>) -> Seq<(Version, Version)> {
    if versions.contains(u32::MAX) {
        Seq::empty()
    } else {
        ranges_of(versions.to_set())
    }
}

impl From<Vec<Version>> for ProtoSet {
    /// Builds a set from versions in any order, with or without duplicates:
    /// each run of consecutive versions becomes one range.
    fn from(v: Vec<Version>) -> (r: ProtoSet)
        ensures
            r@ == coalesced_versions(v@),
            !v@.contains(u32::MAX) ==> coalesced(r@) && holds_exactly(r@, v@.to_set()),
    {
        let versions = sorted_versions(v.as_slice());
        let pairs = coalesce(&versions);
        let ghost ps = pairs@;
        proof {
            assert(versions@.take(versions@.len() as int) == versions@);
            assert forall|i: int, j: int| 0 <= i < j < ps.len() implies pair_lt(ps[i], ps[j]) by {
                lemma_gap_between(ps, i, j);
            }
        }
        match ProtoSet::from_sorted(pairs) {
            Ok(set) => {
                proof {
                    assert forall|i: int| 0 <= i < ps.len() implies (#[trigger] ps[i]).0 <= ps[i].1
                        < u32::MAX by {
                        assert(defect_at(ps, i) is None);
                    }
                    if v@.contains(u32::MAX) {
                        assert(versions@.contains(u32::MAX));
                        assert(covers(ps, u32::MAX));
                    }
                    assert forall|x: Version|
                        #![trigger covers(ps, x)]
                        #![trigger v@.to_set().contains(x)]
                        covers(ps, x) <==> v@.to_set().contains(x) by {
                        assert(covers(ps, x) <==> versions@.contains(x));
                    }
                    lemma_ranges_of_is(ps, v@.to_set());
                }
                set
            },
            Err(_) => {
                proof {
                    let i = choose|i: int| 0 <= i < ps.len() && defect_at(ps, i) is Some;
                    assert(ps[i].0 <= ps[i].1);
                    if i > 0 {
                        assert(ps[i - 1].1 + 1 < ps[i].0);
                    }
                    assert(ps[i].1 == u32::MAX);
                    assert(covers(ps, u32::MAX));
                    assert(versions@.contains(u32::MAX));
                }
                ProtoSet::default()
            },
        }
    }
}

/// What `from` returns is stated by its `ensures`, over views; no value of
/// the type can be written down in a specification.
impl FromSpecImpl<Vec<Version>> for ProtoSet {
    open spec fn obeys_from_spec() -> bool {
        false
    }

    open spec fn from_spec(v: Vec<Version>) -> ProtoSet {
        arbitrary()
    }
}

/// Where each range begins more than one above the end of the range before
/// it, a later range begins more than one above the end of any earlier one.
proof fn lemma_gap_between(pairs: Seq<(Version, Version)>, i: int, j: int)
    requires
        forall|k: int| 0 <= k < pairs.len() ==> (#[trigger] pairs[k]).0 <= pairs[k].1,
        forall|k: int| 0 < k < pairs.len() ==> pairs[k - 1].1 + 1 < (#[trigger] pairs[k]).0,
        0 <= i < j < pairs.len(),
    ensures
        pairs[i].1 + 1 < pairs[j].0,
        pair_lt(pairs[i], pairs[j]),
    decreases j - i,
{
    assert(pairs[j - 1].1 + 1 < pairs[j].0);
    assert(pairs[i].0 <= pairs[i].1);
    if i < j - 1 {
        lemma_gap_between(pairs, i, j - 1);
        assert(pairs[j - 1].0 <= pairs[j - 1].1);
    }
}

/// The coalesced ranges of the versions that `a` contains and `b` does not.
pub open spec fn difference(
    a: Seq<(Version, Version)>,
    b: Seq<(Version, Version)>,
) -> Seq<(Version, Version)> {
    ranges_of(Set::new(|v: Version| covers(a, v) && !covers(b, v)))
}

/// `ranges` are coalesced and contain exactly the versions that `a`
/// contains and `b` does not: they are `difference(a, b)`.
pub open spec fn is_difference(
    ranges: Seq<(Version, Version)>,
    a: Seq<(Version, Version)>,
    b: Seq<(Version, Version)>,
) -> bool {
    &&& coalesced(ranges)
    &&& forall|v: Version|
        #![trigger covers(ranges, v)]
        covers(ranges, v) <==> covers(a, v) && !covers(b, v)
}

/// Well-formed ranges do not contain `u32::MAX`.
pub proof fn lemma_well_formed_below_max(pairs: Seq<(Version, Version)>)
    requires
        well_formed(pairs),
    ensures
        !covers(pairs, u32::MAX),
{
    if covers(pairs, u32::MAX) {
        let i = choose|i: int| 0 <= i < pairs.len() && (#[trigger] pairs[i]).0 <= u32::MAX
            <= pairs[i].1;
        assert(defect_at(pairs, i) is None);
    }
}

/// The difference of well-formed ranges and any others exists: it is
/// coalesced and contains exactly what the first contain and the others do
/// not.
pub proof fn lemma_difference(a: Seq<(Version, Version)>, b: Seq<(Version, Version)>)
    requires
        well_formed(a),
    ensures
        is_difference(difference(a, b), a, b),
{
    let left = Set::new(|v: Version| covers(a, v) && !covers(b, v));
    lemma_well_formed_below_max(a);
    lemma_ranges_of(left);
    assert forall|v: Version| #![trigger covers(difference(a, b), v)] covers(difference(a, b), v)
        <==> covers(a, v) && !covers(b, v) by {
        assert(left.contains(v) <==> covers(a, v) && !covers(b, v));
    }
}

impl ProtoSet {
    /// The versions of this set that `other` does not hold, as a set.
    pub fn and_not_in(&self, other: &ProtoSet) -> (r: ProtoSet)
        ensures
            r@ == difference(self@, other@),
            is_difference(r@, self@, other@),
            coalesced(r@),
            forall|v: Version|
                #![trigger covers(r@, v)]
                covers(r@, v) <==> covers(self@, v) && !covers(other@, v),
    {
        let expanded = self.expand();
        let mut kept: Vec<Version> = Vec::new();
        let mut i: usize = 0;
        proof {
            use_type_invariant(self);
            lemma_expansion_below_max(self@);
        }
        while i < expanded.len()
            invariant
                i <= expanded.len(),
                forall|v: Version|
                    #![trigger kept@.contains(v)]
                    kept@.contains(v) <==> expanded@.take(i as int).contains(v) && !covers(
                        other@,
                        v,
                    ),
            decreases expanded.len() - i,
        {
            let v = expanded[i];
            let ghost before = kept@;
            let keep = !other.contains(v);
            if keep {
                kept.push(v);
            }
            proof {
                let (seen0, seen) = (expanded@.take(i as int), expanded@.take(i + 1));
                assert(seen == seen0.push(v));
                assert forall|x: Version| #![trigger kept@.contains(x)] kept@.contains(x)
                    <==> seen.contains(x) && !covers(other@, x) by {
                    if kept@.contains(x) {
                        let k = choose|k: int| 0 <= k < kept@.len() && kept@[k] == x;
                        if k < before.len() {
                            assert(before[k] == x);
                            assert(before.contains(x));
                            let m = choose|m: int| 0 <= m < seen0.len() && seen0[m] == x;
                            assert(seen[m] == x);
                        } else {
                            assert(seen[i as int] == x);
                        }
                    }
                    if seen.contains(x) && !covers(other@, x) {
                        let m = choose|m: int| 0 <= m < seen.len() && seen[m] == x;
                        if m < i {
                            assert(seen0[m] == x);
                            assert(seen0.contains(x));
                            assert(before.contains(x));
                            let k = choose|k: int| 0 <= k < before.len() && before[k] == x;
                            assert(kept@[k] == x);
                        } else {
                            assert(kept@[before.len() as int] == x);
                        }
                    }
                }
            }
            i += 1;
        }
        proof {
            assert(expanded@.take(i as int) == expanded@);
            if kept@.contains(u32::MAX) {
                assert(expanded@.contains(u32::MAX));
            }
        }
        let ghost all = kept@;
        let r = ProtoSet::from(kept);
        proof {
            assert forall|v: Version| #![trigger covers(r@, v)] covers(r@, v) <==> covers(self@, v)
                && !covers(other@, v) by {
                lemma_covers_iff_expanded(self@, v);
                assert(covers(r@, v) <==> all.to_set().contains(v));
                assert(all.to_set().contains(v) <==> all.contains(v));
            }
            let left = Set::new(|v: Version| covers(self@, v) && !covers(other@, v));
            assert forall|v: Version|
                #![trigger covers(r@, v)]
                #![trigger left.contains(v)]
                covers(r@, v) <==> left.contains(v) by {}
            lemma_ranges_of_is(r@, left);
        }
        r
    }

    /// Keeps only the versions for which `f` returns `true`; the set is
    /// rebuilt from them. `f` is called on every version of the set.
    pub fn retain<F: Fn(&Version) -> bool>(&mut self, f: F)
        requires
            forall|v: Version|
                #![trigger covers(old(self)@, v)]
                covers(old(self)@, v) ==> call_requires(f, (&v,)),
        ensures
            coalesced(final(self)@),
            forall|v: Version|
                #![trigger covers(final(self)@, v)]
                covers(final(self)@, v) ==> covers(old(self)@, v) && call_ensures(f, (&v,), true),
            forall|v: Version|
                #![trigger covers(old(self)@, v)]
                covers(old(self)@, v) && !covers(final(self)@, v) ==> call_ensures(f, (&v,), false),
    {
        let expanded = self.expand();
        let ghost old_pairs = self@;
        proof {
            assert forall|k: int| 0 <= k < expanded@.len() implies call_requires(
                f,
                (&#[trigger] expanded@[k],),
            ) by {
                assert(expanded@.contains(expanded@[k]));
                lemma_covers_iff_expanded(old_pairs, expanded@[k]);
            }
        }
        let kept = taken(&expanded, &f);
        let ghost all = kept@;
        let rebuilt = ProtoSet::from(kept);
        proof {
            assert(!all.contains(u32::MAX));
            assert forall|v: Version| #![trigger covers(rebuilt@, v)] covers(rebuilt@, v) implies covers(
                old_pairs,
                v,
            ) && call_ensures(f, (&v,), true) by {
                assert(all.to_set().contains(v));
                assert(all.contains(v));
                lemma_covers_iff_expanded(old_pairs, v);
            }
            assert forall|v: Version| #![trigger covers(old_pairs, v)] covers(old_pairs, v) && !covers(
                rebuilt@,
                v,
            ) implies call_ensures(f, (&v,), false) by {
                lemma_covers_iff_expanded(old_pairs, v);
                assert(!all.to_set().contains(v));
                assert(!all.contains(v));
            }
        }
        *self = rebuilt;
    }
}

/// The versions of `versions` that `f` takes, in their order.
fn taken<F: Fn(&Version) -> bool>(versions: &Vec<Version>, f: &F) -> (r: Vec<Version>)
    requires
        forall|k: int| 0 <= k < versions@.len() ==> call_requires(f, (&#[trigger] versions@[k],)),
    ensures
        forall|v: Version| #[trigger] r@.contains(v) ==> versions@.contains(v) && call_ensures(
            f,
            (&v,),
            true,
        ),
        forall|v: Version|
            versions@.contains(v) && !(#[trigger] r@.contains(v)) ==> call_ensures(f, (&v,), false),
{
    let mut kept: Vec<Version> = Vec::new();
    let mut i: usize = 0;
    while i < versions.len()
        invariant
            i <= versions.len(),
            forall|k: int|
                0 <= k < versions@.len() ==> call_requires(f, (&#[trigger] versions@[k],)),
            forall|v: Version| #[trigger] kept@.contains(v) ==> versions@.contains(v) && call_ensures(
                f,
                (&v,),
                true,
            ),
            forall|k: int|
                0 <= k < i && !kept@.contains(#[trigger] versions@[k]) ==> call_ensures(
                    f,
                    (&versions@[k],),
                    false,
                ),
        decreases versions.len() - i,
    {
        let v = versions[i];
        let ghost before = kept@;
        let keep = f(&v);
        if keep {
            kept.push(v);
        }
        proof {
            assert forall|x: Version| #[trigger] kept@.contains(x) implies versions@.contains(x)
                && call_ensures(f, (&x,), true) by {
                let k = choose|k: int| 0 <= k < kept@.len() && kept@[k] == x;
                if k < before.len() {
                    assert(before[k] == x);
                    assert(before.contains(x));
                } else {
                    assert(versions@[i as int] == x);
                }
            }
            assert forall|k: int| 0 <= k < i + 1 && !kept@.contains(
                #[trigger] versions@[k],
            ) implies call_ensures(f, (&versions@[k],), false) by {
                if k < i {
                    if before.contains(versions@[k]) {
                        let m = choose|m: int| 0 <= m < before.len() && before[m] == versions@[k];
                        assert(kept@[m] == versions@[k]);
                    }
                } else {
                    if keep {
                        assert(kept@[before.len() as int] == v);
                    }
                }
            }
        }
        i += 1;
    }
    proof {
        assert forall|v: Version| versions@.contains(v) && !(#[trigger] kept@.contains(
            v,
        )) implies call_ensures(f, (&v,), false) by {
            let k = choose|k: int| 0 <= k < versions@.len() && versions@[k] == v;
            assert(!kept@.contains(versions@[k]));
        }
    }
    kept
}

/// No version in the expansion of canonical pairs is `u32::MAX`.
pub proof fn lemma_expansion_below_max(pairs: Seq<(Version, Version)>)
    requires
        canonical(pairs),
    ensures
        !expansion(pairs).contains(u32::MAX),
{
    lemma_covers_iff_expanded(pairs, u32::MAX);
    if covers(pairs, u32::MAX) {
        let i = choose|i: int| 0 <= i < pairs.len() && (#[trigger] pairs[i]).0 <= u32::MAX
            <= pairs[i].1;
        assert(defect_at(pairs, i) is None);
    }
}

impl core::str::FromStr for ProtoSet {
    type Err = ProtoverError;

    /// Reads a set from text; see `ProtoSet::from_str`.
    fn from_str(version_string: &str) -> (r: Result<ProtoSet, ProtoverError>)
        ensures
            built(r) == parse_version_set(version_string@),
    {
        ProtoSet::from_str(version_string)
    }
}

} // verus!
