//! The vote: many entries are merged into one that holds, for each
//! protocol, the versions that enough of them list.

use crate::protocol::UnknownProtocol;
use crate::protoentry::{
    set_views, total_span, MAX_PROTOCOLS_TO_EXPAND, Ranges, UnvalidatedProtoEntry,
};
use crate::protoset::{
    ascending, coalesced, covers, holds_exactly, lemma_covers_iff_expanded, lemma_ranges_of,
    lemma_well_formed_below_max, ranges_of, well_formed, ProtoSet,
};
use crate::ranges::Version;
use crate::table::{distinct_keys, has_key, lemma_to_map, to_map, Key, Table};
use std::collections::HashMap;
use vstd::prelude::*;
use vstd::seq_lib::to_multiset_remove;

verus! {

broadcast use vstd::std_specs::hash::group_hash_axioms;

/// How often `version` occurs in `versions`.
pub open spec fn count_in(versions: Seq<Version>, version: Version) -> nat
    decreases versions.len(),
{
    if versions.len() == 0 {
        0
    } else {
        count_in(versions.drop_last(), version) + if versions.last() == version {
            1nat
        } else {
            0nat
        }
    }
}

/// What occurs in a sequence is counted at least once, and nothing else is
/// counted.
pub proof fn lemma_count_in(versions: Seq<Version>, version: Version)
    ensures
        count_in(versions, version) > 0 <==> versions.contains(version),
    decreases versions.len(),
{
    if versions.len() > 0 {
        let head = versions.drop_last();
        lemma_count_in(head, version);
        if head.contains(version) {
            let k = choose|k: int| 0 <= k < head.len() && head[k] == version;
            assert(versions[k] == version);
        }
        if versions.contains(version) && versions.last() != version {
            let k = choose|k: int| 0 <= k < versions.len() && versions[k] == version;
            assert(head[k] == version);
        }
    }
}

/// In an ascending sequence nothing occurs twice.
pub proof fn lemma_count_in_ascending(versions: Seq<Version>, version: Version)
    requires
        ascending(versions),
    ensures
        count_in(versions, version) == if versions.contains(version) {
            1nat
        } else {
            0nat
        },
    decreases versions.len(),
{
    if versions.len() > 0 {
        let head = versions.drop_last();
        let n = versions.len() - 1;
        assert(ascending(head)) by {
            assert forall|i: int, j: int| 0 <= i < j < head.len() implies head[i] < head[j] by {
                assert(versions[i] < versions[j]);
            }
        }
        lemma_count_in_ascending(head, version);
        if head.contains(version) {
            let k = choose|k: int| 0 <= k < head.len() && head[k] == version;
            assert(versions[k] < versions[n]);
            assert(versions[k] == version);
        }
        if versions.contains(version) && versions.last() != version {
            let k = choose|k: int| 0 <= k < versions.len() && versions[k] == version;
            assert(head[k] == version);
        }
        if versions.last() == version {
            assert(versions[n] == version);
        }
    }
}

/// A count that stops at `usize::MAX`.
pub open spec fn capped(n: nat) -> nat {
    if n > usize::MAX {
        usize::MAX as nat
    } else {
        n
    }
}

/// The count that is kept for `version`: none where there is no counter.
pub open spec fn held(counts: Map<Version, usize>, version: Version) -> nat {
    if counts.contains_key(version) {
        counts[version] as nat
    } else {
        0
    }
}

/// Every counter stands at one or more.
pub open spec fn positive(counts: Map<Version, usize>) -> bool {
    forall|v: Version| counts.contains_key(v) ==> #[trigger] counts[v] >= 1
}

/// Counts one more vote for `version`; the count stops at `usize::MAX`.
fn bump(counts: &mut HashMap<Version, usize>, version: Version)
    requires
        positive(old(counts)@),
    ensures
        positive(final(counts)@),
        held(final(counts)@, version) == capped(held(old(counts)@, version) + 1),
        forall|v: Version| v != version ==> held(final(counts)@, v) == held(old(counts)@, v),
{
    let seen: usize = match counts.get(&version) {
        Some(count) => *count,
        None => 0,
    };
    let next: usize = if seen < usize::MAX {
        seen + 1
    } else {
        seen
    };
    counts.insert(version, next);
}

/// Counts one more vote for each of `versions`, as often as it occurs.
fn count_versions(counts: &mut HashMap<Version, usize>, versions: &Vec<Version>)
    requires
        positive(old(counts)@),
    ensures
        positive(final(counts)@),
        forall|v: Version|
            #![trigger held(final(counts)@, v)]
            held(final(counts)@, v) == capped(held(old(counts)@, v) + count_in(versions@, v)),
        forall|v: Version| #[trigger]
            final(counts)@.contains_key(v) ==> old(counts)@.contains_key(v) || versions@.contains(
                v,
            ),
{
    let mut i: usize = 0;
    assert(versions@.take(0) == Seq::<Version>::empty());
    while i < versions.len()
        invariant
            i <= versions.len(),
            positive(counts@),
            forall|v: Version|
                #![trigger held(counts@, v)]
                held(counts@, v) == capped(
                    held(old(counts)@, v) + count_in(versions@.take(i as int), v),
                ),
        decreases versions.len() - i,
    {
        let ghost before = counts@;
        bump(counts, versions[i]);
        proof {
            let seen = versions@.take(i + 1);
            assert(seen.drop_last() == versions@.take(i as int));
            assert(seen.last() == versions@[i as int]);
            assert forall|v: Version| #![trigger held(counts@, v)] held(counts@, v) == capped(
                held(old(counts)@, v) + count_in(seen, v),
            ) by {
                assert(held(before, v) == capped(
                    held(old(counts)@, v) + count_in(versions@.take(i as int), v),
                ));
            }
        }
        i += 1;
    }
    assert(versions@.take(i as int) == versions@);
    assert forall|v: Version| #[trigger] counts@.contains_key(v) implies old(
        counts,
    )@.contains_key(v) || versions@.contains(v) by {
        lemma_count_in(versions@, v);
        assert(held(counts@, v) >= 1);
    }
}

/// What one voter adds to the count of `version` of the protocol `name`:
/// one vote if the set that the voter has for the protocol contains the
/// version, else none.
pub open spec fn votes_of(entry: Map<Seq<char>, Ranges>, name: Seq<char>, version: Version) -> nat {
    if entry.contains_key(name) && covers(entry[name], version) {
        1
    } else {
        0
    }
}

/// Whether a voter is counted: one whose sets hold more than
/// `MAX_PROTOCOLS_TO_EXPAND` versions together is passed over.
pub open spec fn is_counted(entry: Map<Seq<char>, Ranges>) -> bool {
    total_span(entry) <= MAX_PROTOCOLS_TO_EXPAND
}

/// What one voter adds to the count of `version` of the protocol `name` in
/// the vote: nothing if the voter is passed over.
pub open spec fn counted_votes(entry: Map<Seq<char>, Ranges>, name: Seq<char>, version: Version) -> nat {
    if is_counted(entry) {
        votes_of(entry, name, version)
    } else {
        0
    }
}

/// The count that is kept for `version` of the protocol `name`: none where
/// there is no counter.
pub open spec fn votes_held(
    votes: Map<Seq<char>, Map<Version, usize>>,
    name: Seq<char>,
    version: Version,
) -> nat {
    if votes.contains_key(name) {
        held(votes[name], version)
    } else {
        0
    }
}

/// How often each version of each protocol was voted for. The view maps the
/// name of a protocol to the counts of its versions; a count stops at
/// `usize::MAX`, and no count is 0.
pub struct ProtoverVote(Table<UnknownProtocol, HashMap<Version, usize>>);

impl View for ProtoverVote {
    type V = Map<Seq<char>, Map<Version, usize>>;

    closed spec fn view(&self) -> Map<Seq<char>, Map<Version, usize>> {
        Map::new(|name: Seq<char>| self.0@.contains_key(name), |name: Seq<char>| self.0@[name]@)
    }
}

impl Default for ProtoverVote {
    /// No votes.
    fn default() -> (r: ProtoverVote)
        ensures
            r@ == Map::<Seq<char>, Map<Version, usize>>::empty(),
    {
        let r = ProtoverVote(Table::new());
        assert(r@ =~= Map::<Seq<char>, Map<Version, usize>>::empty());
        r
    }
}

impl ProtoverVote {
    /// No count is 0, and `u32::MAX`, which is no version, has no count.
    #[verifier::type_invariant]
    spec fn counts_are_positive(&self) -> bool {
        forall|name: Seq<char>| #[trigger]
            self.0@.contains_key(name) ==> positive(self.0@[name]@) && !self.0@[name]@.contains_key(
                u32::MAX,
            )
    }

    /// Makes sure that the protocol `key` has counters: if it has none yet,
    /// it gets a set of counters without any count.
    pub fn entry(&mut self, key: UnknownProtocol)
        ensures
            final(self)@ == if old(self)@.contains_key(key@) {
                old(self)@
            } else {
                old(self)@.insert(key@, Map::empty())
            },
    {
        proof {
            use_type_invariant(&*self);
        }
        if self.0.find(&key).is_none() {
            let mut table: Table<UnknownProtocol, HashMap<Version, usize>> = Table::new();
            core::mem::swap(&mut self.0, &mut table);
            table.insert(key, HashMap::new());
            core::mem::swap(&mut self.0, &mut table);
            assert(self@ =~= old(self)@.insert(key@, Map::empty()));
        } else {
            assert(self@ =~= old(self)@);
        }
    }

    /// Counts one vote of the protocol `key` for every version of
    /// `versions`.
    pub fn add_versions(&mut self, key: UnknownProtocol, versions: &ProtoSet)
        ensures
            forall|name: Seq<char>, v: Version|
                #![trigger votes_held(final(self)@, name, v)]
                votes_held(final(self)@, name, v) == capped(
                    votes_held(old(self)@, name, v) + if name == key@ && covers(versions@, v) {
                        1nat
                    } else {
                        0nat
                    },
                ),
    {
        proof {
            use_type_invariant(&*self);
        }
        let ghost before = self.0@;
        let ghost id = key@;
        let expanded = versions.expand();
        let mut table: Table<UnknownProtocol, HashMap<Version, usize>> = Table::new();
        core::mem::swap(&mut self.0, &mut table);
        let mut counts = match table.remove(&key) {
            Some(counts) => counts,
            None => HashMap::new(),
        };
        let ghost seen = counts@;
        assert(positive(seen));
        count_versions(&mut counts, &expanded);
        let ghost now = counts@;
        table.insert(key, counts);
        proof {
            assert(table@ =~= before.insert(id, counts));
            assert forall|name: Seq<char>| #[trigger] table@.contains_key(name) implies positive(
                table@[name]@,
            ) && !table@[name]@.contains_key(u32::MAX) by {
                if name != id {
                    assert(before.contains_key(name));
                }
            }
        }
        core::mem::swap(&mut self.0, &mut table);
        proof {
            assert forall|name: Seq<char>, v: Version|
                #![trigger votes_held(self@, name, v)]
                votes_held(self@, name, v) == capped(
                    votes_held(old(self)@, name, v) + if name == id && covers(versions@, v) {
                        1nat
                    } else {
                        0nat
                    },
                ) by {
                if name == id {
                    lemma_count_in_ascending(expanded@, v);
                    lemma_covers_iff_expanded(versions@, v);
                    assert(held(now, v) == capped(held(seen, v) + count_in(expanded@, v)));
                    assert(votes_held(old(self)@, name, v) == held(seen, v));
                } else {
                    assert(self.0@.contains_key(name) == before.contains_key(name));
                }
            }
        }
    }
}

/// The versions whose count is `threshold` or more.
fn over_threshold(counts: &HashMap<Version, usize>, threshold: usize) -> (r: Vec<Version>)
    ensures
        forall|v: Version|
            #![trigger r@.contains(v)]
            r@.contains(v) <==> counts@.contains_key(v) && counts@[v] >= threshold,
{
    let mut out: Vec<Version> = Vec::new();
    for key in it: counts.keys()
        invariant
            it.seq().unref().to_set() == counts@.dom(),
            forall|v: Version|
                #![trigger out@.contains(v)]
                out@.contains(v) <==> it.seq().unref().take(it.index() as int).contains(v)
                    && counts@[v] >= threshold,
            it.index() == it.seq().len() ==> forall|v: Version|
                #![trigger out@.contains(v)]
                out@.contains(v) <==> counts@.contains_key(v) && counts@[v] >= threshold,
    {
        let ghost before = out@;
        let ghost keys = it.seq().unref();
        let ghost n = it.index() as int;
        let version: Version = *key;
        assert(keys[n] == version);
        assert(keys.to_set().contains(version));
        let passes = match counts.get(&version) {
            Some(count) => *count >= threshold,
            None => false,
        };
        if passes {
            out.push(version);
        }
        proof {
            let (seen0, seen1) = (keys.take(n), keys.take(n + 1));
            assert(seen1 == seen0.push(version));
            assert forall|v: Version| #![trigger out@.contains(v)] out@.contains(v)
                <==> seen1.contains(v) && counts@[v] >= threshold by {
                if out@.contains(v) {
                    let k = choose|k: int| 0 <= k < out@.len() && out@[k] == v;
                    if k < before.len() {
                        assert(before[k] == v);
                        assert(before.contains(v));
                        let m = choose|m: int| 0 <= m < seen0.len() && seen0[m] == v;
                        assert(seen1[m] == v);
                    } else {
                        assert(seen1[n] == v);
                    }
                }
                if seen1.contains(v) && counts@[v] >= threshold {
                    let m = choose|m: int| 0 <= m < seen1.len() && seen1[m] == v;
                    if m < n {
                        assert(seen0[m] == v);
                        assert(seen0.contains(v));
                        assert(before.contains(v));
                        let k = choose|k: int| 0 <= k < before.len() && before[k] == v;
                        assert(out@[k] == v);
                    } else {
                        assert(out@[before.len() as int] == v);
                    }
                }
            }
            assert forall|v: Version| n + 1 == keys.len() implies (#[trigger] out@.contains(v)
                <==> counts@.contains_key(v) && counts@[v] >= threshold) by {
                assert(keys.take(n + 1) == keys);
                assert(keys.contains(v) <==> keys.to_set().contains(v));
            }
        }
    }
    out
}

/// The views of the entries.
pub open spec fn entry_views(entries: Seq<UnvalidatedProtoEntry>) -> Seq<Map<Seq<char>, Ranges>> {
    Seq::new(entries.len(), |i: int| entries[i]@)
}

/// How many votes `version` of the protocol `name` has among `entries`:
/// what each voter that is counted adds.
pub open spec fn tally(entries: Seq<Map<Seq<char>, Ranges>>, name: Seq<char>, version: Version) -> nat
    decreases entries.len(),
{
    if entries.len() == 0 {
        0
    } else {
        tally(entries.drop_last(), name, version) + counted_votes(entries.last(), name, version)
    }
}

/// The versions of the protocol `name` that win the vote: those with at
/// least one vote and at least `threshold` votes.
pub open spec fn winners(
    entries: Seq<Map<Seq<char>, Ranges>>,
    name: Seq<char>,
    threshold: usize,
) -> Set<Version> {
    Set::new(|v: Version| tally(entries, name, v) >= 1 && tally(entries, name, v) >= threshold)
}

/// The outcome of the vote: each protocol of which some version wins, with
/// the coalesced ranges of the versions that win.
pub open spec fn vote_result(entries: Seq<Map<Seq<char>, Ranges>>, threshold: usize) -> Map<
    Seq<char>,
    Ranges,
> {
    Map::new(
        |name: Seq<char>| exists|v: Version| winners(entries, name, threshold).contains(v),
        |name: Seq<char>| ranges_of(winners(entries, name, threshold)),
    )
}

/// The versions of the protocol `name` whose count is `threshold` or more.
pub open spec fn chosen_versions(
    votes: Map<Seq<char>, Map<Version, usize>>,
    name: Seq<char>,
    threshold: usize,
) -> Set<Version> {
    Set::new(
        |v: Version|
            votes.contains_key(name) && votes[name].contains_key(v) && votes[name][v] >= threshold,
    )
}

/// What the counts amount to: each protocol of which some version has a
/// count of `threshold` or more, with the coalesced ranges of those
/// versions.
pub open spec fn chosen(votes: Map<Seq<char>, Map<Version, usize>>, threshold: usize) -> Map<
    Seq<char>,
    Ranges,
> {
    Map::new(
        |name: Seq<char>| exists|v: Version| chosen_versions(votes, name, threshold).contains(v),
        |name: Seq<char>| ranges_of(chosen_versions(votes, name, threshold)),
    )
}

/// A voter adds to a protocol what its set for the protocol holds; the
/// other sets of the voter make no difference.
proof fn lemma_votes_of_insert(
    entry: Map<Seq<char>, Ranges>,
    key: Seq<char>,
    ranges: Ranges,
    name: Seq<char>,
    v: Version,
)
    requires
        !entry.contains_key(key),
    ensures
        votes_of(entry.insert(key, ranges), name, v) == votes_of(entry, name, v) + if name == key
            && covers(ranges, v) {
            1nat
        } else {
            0nat
        },
{
}

impl ProtoverVote {
    /// Counts the votes of one voter: one vote for every version of every
    /// protocol of `vote`. A voter with more than `MAX_PROTOCOLS_TO_EXPAND`
    /// versions in all is passed over.
    pub fn add_vote(&mut self, vote: &UnvalidatedProtoEntry)
        ensures
            forall|name: Seq<char>, v: Version|
                #![trigger votes_held(final(self)@, name, v)]
                votes_held(final(self)@, name, v) == capped(
                    votes_held(old(self)@, name, v) + counted_votes(vote@, name, v),
                ),
    {
        if vote.len_exceeds(MAX_PROTOCOLS_TO_EXPAND) {
            return ;
        }
        let slots = vote.iter();
        let ghost start = self@;
        let mut i: usize = 0;
        assert(set_views(to_map(slots@.take(0))) =~= Map::<Seq<char>, Ranges>::empty());
        while i < slots.len()
            invariant
                i <= slots.len(),
                distinct_keys(slots@),
                forall|name: Seq<char>, v: Version|
                    #![trigger votes_held(self@, name, v)]
                    votes_held(self@, name, v) == capped(
                        votes_held(start, name, v) + votes_of(
                            set_views(to_map(slots@.take(i as int))),
                            name,
                            v,
                        ),
                    ),
            decreases slots.len() - i,
        {
            let ghost before = self@;
            self.add_versions(slots[i].0.clone(), &slots[i].1);
            proof {
                let head = slots@.take(i as int);
                let seen = slots@.take(i + 1);
                let key = slots@[i as int].0@;
                let ranges = slots@[i as int].1@;
                assert(seen.drop_last() == head);
                assert(seen.last() == slots@[i as int]);
                assert(set_views(to_map(seen)) =~= set_views(to_map(head)).insert(key, ranges));
                assert(distinct_keys(head));
                lemma_to_map(head);
                if to_map(head).contains_key(key) {
                    assert(has_key(head, key));
                    let j = choose|j: int| 0 <= j < head.len() && (#[trigger] head[j]).0.id() == key;
                    assert(head[j] == slots@[j]);
                    assert(slots@[j].0.id() != slots@[i as int].0.id());
                }
                assert forall|name: Seq<char>, v: Version|
                    #![trigger votes_held(self@, name, v)]
                    votes_held(self@, name, v) == capped(
                        votes_held(start, name, v) + votes_of(set_views(to_map(seen)), name, v),
                    ) by {
                    lemma_votes_of_insert(set_views(to_map(head)), key, ranges, name, v);
                    assert(votes_held(before, name, v) == capped(
                        votes_held(start, name, v) + votes_of(set_views(to_map(head)), name, v),
                    ));
                }
            }
            i += 1;
        }
        assert(slots@.take(i as int) == slots@);
    }

    /// What the counts amount to: each protocol of which some version has
    /// `threshold` votes or more, with the set of those versions.
    pub fn into_entry(&self, threshold: usize) -> (r: UnvalidatedProtoEntry)
        ensures
            r@ == chosen(self@, threshold),
            forall|name: Seq<char>| #[trigger]
                r@.contains_key(name) ==> coalesced(r@[name]) && holds_exactly(
                    r@[name],
                    chosen_versions(self@, name, threshold),
                ),
    {
        proof {
            use_type_invariant(self);
        }
        let slots = self.0.entries();
        let mut out = UnvalidatedProtoEntry::default();
        let mut i: usize = 0;
        while i < slots.len()
            invariant
                i <= slots.len(),
                slots@ == self.0.slots(),
                distinct_keys(slots@),
                to_map(slots@) == self.0@,
                forall|name: Seq<char>| #[trigger]
                    self.0@.contains_key(name) ==> !self.0@[name]@.contains_key(u32::MAX),
                forall|name: Seq<char>| #[trigger]
                    out@.contains_key(name) <==> has_key(slots@.take(i as int), name) && chosen(
                        self@,
                        threshold,
                    ).contains_key(name),
                forall|name: Seq<char>| #[trigger]
                    out@.contains_key(name) ==> out@[name] == chosen(self@, threshold)[name]
                        && coalesced(out@[name]) && holds_exactly(
                        out@[name],
                        chosen_versions(self@, name, threshold),
                    ),
            decreases slots.len() - i,
        {
            let voted_versions = over_threshold(&slots[i].1, threshold);
            let ghost name = slots@[i as int].0@;
            let ghost picked = voted_versions@;
            let ghost before = out@;
            proof {
                lemma_to_map(slots@);
                assert(self.0@.contains_key(name));
                assert(self@[name] == slots@[i as int].1@);
                assert(picked.to_set() =~= chosen_versions(self@, name, threshold)) by {
                    assert forall|v: Version| picked.to_set().contains(v) <==> chosen_versions(
                        self@,
                        name,
                        threshold,
                    ).contains(v) by {
                        assert(picked.contains(v) <==> picked.to_set().contains(v));
                    }
                }
                if picked.contains(u32::MAX) {
                    assert(self.0@[name]@.contains_key(u32::MAX));
                }
            }
            if voted_versions.len() > 0 {
                proof {
                    assert(picked.contains(picked[0]));
                    assert(chosen_versions(self@, name, threshold).contains(picked[0]));
                }
                let voted_protoset = ProtoSet::from(voted_versions);
                assert(coalesced(voted_protoset@) && holds_exactly(
                    voted_protoset@,
                    chosen_versions(self@, name, threshold),
                ));
                out.insert(slots[i].0.clone(), voted_protoset);
            } else {
                proof {
                    if chosen(self@, threshold).contains_key(name) {
                        let v = choose|v: Version|
                            chosen_versions(self@, name, threshold).contains(v);
                        assert(picked.to_set().contains(v));
                        assert(picked.contains(v));
                    }
                }
            }
            proof {
                let head = slots@.take(i as int);
                let seen = slots@.take(i + 1);
                assert forall|other: Seq<char>| #[trigger]
                    out@.contains_key(other) <==> has_key(seen, other) && chosen(
                        self@,
                        threshold,
                    ).contains_key(other) by {
                    if has_key(seen, other) {
                        let j = choose|j: int| 0 <= j < seen.len() && (#[trigger] seen[j]).0.id()
                            == other;
                        if j < i {
                            assert(head[j] == seen[j]);
                            assert(has_key(head, other));
                        }
                    }
                    if has_key(head, other) {
                        let j = choose|j: int| 0 <= j < head.len() && (#[trigger] head[j]).0.id()
                            == other;
                        assert(seen[j] == head[j]);
                        assert(has_key(seen, other));
                    }
                    if other == name {
                        assert(seen[i as int].0.id() == name);
                        assert(has_key(seen, name));
                    }
                    assert(before.contains_key(other) <==> has_key(head, other) && chosen(
                        self@,
                        threshold,
                    ).contains_key(other));
                }
            }
            i += 1;
        }
        proof {
            assert(slots@.take(i as int) == slots@);
            lemma_to_map(slots@);
            assert forall|name: Seq<char>| #[trigger]
                chosen(self@, threshold).contains_key(name) implies has_key(slots@, name) by {
                let v = choose|v: Version| chosen_versions(self@, name, threshold).contains(v);
                assert(self@.contains_key(name));
                assert(self.0@.contains_key(name));
            }
            assert(out@ =~= chosen(self@, threshold));
        }
        out
    }

    /// The vote: for each protocol, the versions that are listed by at
    /// least `threshold` of `proto_entries`, and by at least one, as a set
    /// of coalesced ranges. An entry with more than
    /// `MAX_PROTOCOLS_TO_EXPAND` versions in all has no vote. A protocol
    /// without such a version is left out.
    pub fn compute(proto_entries: &[UnvalidatedProtoEntry], threshold: usize) -> (r:
        UnvalidatedProtoEntry)
        ensures
            r@ == vote_result(entry_views(proto_entries@), threshold),
            forall|name: Seq<char>| #[trigger]
                r@.contains_key(name) ==> coalesced(r@[name]) && holds_exactly(
                    r@[name],
                    winners(entry_views(proto_entries@), name, threshold),
                ),
    {
        let mut all_count = ProtoverVote::default();
        let ghost views = entry_views(proto_entries@);
        let mut i: usize = 0;
        while i < proto_entries.len()
            invariant
                i <= proto_entries.len(),
                views == entry_views(proto_entries@),
                forall|name: Seq<char>, v: Version|
                    #![trigger votes_held(all_count@, name, v)]
                    votes_held(all_count@, name, v) == capped(
                        tally(views.take(i as int), name, v),
                    ),
            decreases proto_entries.len() - i,
        {
            let ghost before = all_count@;
            all_count.add_vote(&proto_entries[i]);
            proof {
                let seen = views.take(i + 1);
                assert(seen.drop_last() == views.take(i as int));
                assert(seen.last() == proto_entries@[i as int]@);
                assert forall|name: Seq<char>, v: Version|
                    #![trigger votes_held(all_count@, name, v)]
                    votes_held(all_count@, name, v) == capped(tally(seen, name, v)) by {
                    assert(votes_held(before, name, v) == capped(
                        tally(views.take(i as int), name, v),
                    ));
                }
            }
            i += 1;
        }
        let final_output = all_count.into_entry(threshold);
        proof {
            use_type_invariant(&all_count);
            assert(views.take(i as int) == views);
            let votes = all_count@;
            assert forall|name: Seq<char>| #[trigger]
                chosen_versions(votes, name, threshold) =~= winners(views, name, threshold) by {
                assert forall|v: Version|
                    chosen_versions(votes, name, threshold).contains(v) <==> winners(
                        views,
                        name,
                        threshold,
                    ).contains(v) by {
                    assert(votes_held(votes, name, v) == capped(tally(views, name, v)));
                    if votes.contains_key(name) {
                        assert(all_count.0@.contains_key(name));
                        assert(positive(votes[name]));
                    }
                }
            }
            assert(chosen(votes, threshold) =~= vote_result(views, threshold)) by {
                assert forall|name: Seq<char>|
                    chosen(votes, threshold).contains_key(name) <==> vote_result(
                        views,
                        threshold,
                    ).contains_key(name) by {
                    assert(chosen_versions(votes, name, threshold) =~= winners(
                        views,
                        name,
                        threshold,
                    ));
                }
                assert forall|name: Seq<char>|
                    chosen(votes, threshold).contains_key(name) implies chosen(
                        votes,
                        threshold,
                    )[name] == vote_result(views, threshold)[name] by {
                    assert(chosen_versions(votes, name, threshold) =~= winners(
                        views,
                        name,
                        threshold,
                    ));
                }
            }
        }
        final_output
    }
}

/// The tally is what one voter adds and what the others add.
pub proof fn lemma_tally_remove(
    entries: Seq<Map<Seq<char>, Ranges>>,
    i: int,
    name: Seq<char>,
    version: Version,
)
    requires
        0 <= i < entries.len(),
    ensures
        tally(entries, name, version) == tally(entries.remove(i), name, version) + counted_votes(
            entries[i],
            name,
            version,
        ),
    decreases entries.len(),
{
    if i == entries.len() - 1 {
        assert(entries.remove(i) == entries.drop_last());
    } else {
        lemma_tally_remove(entries.drop_last(), i, name, version);
        assert(entries.remove(i).drop_last() == entries.drop_last().remove(i));
        assert(entries.remove(i).last() == entries.last());
    }
}

/// Where the tallies agree, so do the outcomes.
pub proof fn lemma_same_tally(
    a: Seq<Map<Seq<char>, Ranges>>,
    b: Seq<Map<Seq<char>, Ranges>>,
    threshold: usize,
)
    requires
        forall|name: Seq<char>, v: Version| tally(a, name, v) == tally(b, name, v),
    ensures
        vote_result(a, threshold) == vote_result(b, threshold),
{
    assert forall|name: Seq<char>| #[trigger]
        winners(a, name, threshold) == winners(b, name, threshold) by {
        assert(winners(a, name, threshold) =~= winners(b, name, threshold));
    }
    assert(vote_result(a, threshold) =~= vote_result(b, threshold)) by {
        assert forall|name: Seq<char>|
            vote_result(a, threshold).contains_key(name) <==> vote_result(
                b,
                threshold,
            ).contains_key(name) by {
            assert(winners(a, name, threshold) == winners(b, name, threshold));
        }
        assert forall|name: Seq<char>| vote_result(a, threshold).contains_key(name) implies vote_result(
            a,
            threshold,
        )[name] == vote_result(b, threshold)[name] by {
            assert(winners(a, name, threshold) == winners(b, name, threshold));
        }
    }
}

/// A voter with more than `MAX_PROTOCOLS_TO_EXPAND` versions makes no
/// difference to the vote: the outcome is what it is without that voter.
pub proof fn lemma_voter_passed_over(
    entries: Seq<Map<Seq<char>, Ranges>>,
    i: int,
    threshold: usize,
)
    requires
        0 <= i < entries.len(),
        total_span(entries[i]) > MAX_PROTOCOLS_TO_EXPAND,
    ensures
        vote_result(entries, threshold) == vote_result(entries.remove(i), threshold),
{
    assert forall|name: Seq<char>, v: Version|
        tally(entries, name, v) == tally(entries.remove(i), name, v) by {
        lemma_tally_remove(entries, i, name, v);
    }
    lemma_same_tally(entries, entries.remove(i), threshold);
}

/// The tally does not depend on the order of the voters.
pub proof fn lemma_tally_any_order(
    a: Seq<Map<Seq<char>, Ranges>>,
    b: Seq<Map<Seq<char>, Ranges>>,
    name: Seq<char>,
    version: Version,
)
    requires
        a.to_multiset() == b.to_multiset(),
    ensures
        tally(a, name, version) == tally(b, name, version),
    decreases a.len(),
{
    a.to_multiset_ensures();
    b.to_multiset_ensures();
    if a.len() > 0 {
        let last = a.len() - 1;
        let voter = a[last];
        assert(a.contains(voter));
        assert(b.to_multiset().count(voter) > 0);
        assert(b.contains(voter));
        let j = choose|j: int| 0 <= j < b.len() && b[j] == voter;
        to_multiset_remove(a, last);
        to_multiset_remove(b, j);
        lemma_tally_any_order(a.remove(last), b.remove(j), name, version);
        lemma_tally_remove(a, last, name, version);
        lemma_tally_remove(b, j, name, version);
    }
}

/// The outcome of the vote does not depend on the order of the voters.
pub proof fn lemma_vote_any_order(
    a: Seq<Map<Seq<char>, Ranges>>,
    b: Seq<Map<Seq<char>, Ranges>>,
    threshold: usize,
)
    requires
        a.to_multiset() == b.to_multiset(),
    ensures
        vote_result(a, threshold) == vote_result(b, threshold),
{
    assert forall|name: Seq<char>, v: Version| tally(a, name, v) == tally(b, name, v) by {
        lemma_tally_any_order(a, b, name, v);
    }
    lemma_same_tally(a, b, threshold);
}

/// A version has at most as many votes as there are voters: each voter
/// that is counted and lists the version adds one.
pub proof fn lemma_tally_bound(
    entries: Seq<Map<Seq<char>, Ranges>>,
    name: Seq<char>,
    version: Version,
)
    ensures
        tally(entries, name, version) <= entries.len(),
    decreases entries.len(),
{
    if entries.len() > 0 {
        lemma_tally_bound(entries.drop_last(), name, version);
    }
}

/// With a threshold above the number of voters nothing wins.
pub proof fn lemma_threshold_above_voters(
    entries: Seq<Map<Seq<char>, Ranges>>,
    threshold: usize,
)
    requires
        threshold > entries.len(),
    ensures
        vote_result(entries, threshold) == Map::<Seq<char>, Ranges>::empty(),
{
    assert forall|name: Seq<char>| !vote_result(entries, threshold).contains_key(name) by {
        if vote_result(entries, threshold).contains_key(name) {
            let v = choose|v: Version| winners(entries, name, threshold).contains(v);
            lemma_tally_bound(entries, name, v);
        }
    }
    assert(vote_result(entries, threshold) =~= Map::<Seq<char>, Ranges>::empty());
}

/// What wins at a threshold wins at every lower one, and a protocol that
/// is in the outcome at a threshold is in the outcome at every lower one.
pub proof fn lemma_vote_monotone(
    entries: Seq<Map<Seq<char>, Ranges>>,
    lower: usize,
    higher: usize,
    name: Seq<char>,
)
    requires
        lower <= higher,
    ensures
        winners(entries, name, higher).subset_of(winners(entries, name, lower)),
        vote_result(entries, higher).contains_key(name) ==> vote_result(
            entries,
            lower,
        ).contains_key(name),
{
    if vote_result(entries, higher).contains_key(name) {
        let v = choose|v: Version| winners(entries, name, higher).contains(v);
        assert(winners(entries, name, lower).contains(v));
    }
}

/// Where the sets of the voters are well formed, the ranges that the
/// outcome gives a protocol exist: they are coalesced and contain exactly
/// the versions that win.
pub proof fn lemma_vote_result_ranges(
    entries: Seq<Map<Seq<char>, Ranges>>,
    threshold: usize,
    name: Seq<char>,
)
    requires
        forall|i: int|
            0 <= i < entries.len() && (#[trigger] entries[i]).contains_key(name) ==> well_formed(
                entries[i][name],
            ),
    ensures
        coalesced(ranges_of(winners(entries, name, threshold))),
        holds_exactly(
            ranges_of(winners(entries, name, threshold)),
            winners(entries, name, threshold),
        ),
        vote_result(entries, threshold).contains_key(name) ==> vote_result(entries, threshold)[name]
            == ranges_of(winners(entries, name, threshold)),
{
    lemma_no_vote_for_max(entries, name);
    lemma_ranges_of(winners(entries, name, threshold));
}

/// Where the sets of the voters are well formed, `u32::MAX`, which is no
/// version, has no votes.
proof fn lemma_no_vote_for_max(entries: Seq<Map<Seq<char>, Ranges>>, name: Seq<char>)
    requires
        forall|i: int|
            0 <= i < entries.len() && (#[trigger] entries[i]).contains_key(name) ==> well_formed(
                entries[i][name],
            ),
    ensures
        tally(entries, name, u32::MAX) == 0,
    decreases entries.len(),
{
    if entries.len() > 0 {
        let head = entries.drop_last();
        let n = entries.len() - 1;
        assert forall|i: int| 0 <= i < head.len() && (#[trigger] head[i]).contains_key(
            name,
        ) implies well_formed(head[i][name]) by {
            assert(head[i] == entries[i]);
        }
        lemma_no_vote_for_max(head, name);
        if entries[n].contains_key(name) {
            lemma_well_formed_below_max(entries[n][name]);
        }
    }
}

} // verus!
