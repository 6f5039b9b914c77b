//! Entries: what a relay supports, as a map from protocols to sets of
//! versions. `ProtoEntry` takes known protocols only; `UnvalidatedProtoEntry`
//! takes any name.

use crate::errors::ProtoverError;
use crate::protocol::{
    known_protocol, lemma_protocol_names, name_defect, protocol_name, Protocol, UnknownProtocol,
};
use crate::protoset::{
    canonical, covers, difference, is_difference, lemma_text_round_trip, parse_version_set, span,
    version_set_text, ProtoSet,
};
use crate::ranges::Version;
use crate::sorting::{
    arranged, ascending_order, is_arrangement, lemma_sorted_texts_is, lists, sorted_texts,
};
use crate::table::{distinct_keys, has_key, lemma_to_map, to_map, Key, Table};
use crate::text::{
    has_char, index_of, join, lemma_index_of, lemma_index_of_is, lemma_join_push, lemma_split_join,
    position, push_all, split, split_at_char, to_chars, to_text, views,
};
use vstd::prelude::*;
use vstd::set_lib::lemma_subset_equality;
use vstd::std_specs::convert::FromSpecImpl;

verus! {

/// The most versions that are expanded for one voter or one protocol before
/// the input is taken for an attempt to exhaust memory.
pub const MAX_PROTOCOLS_TO_EXPAND: usize = 65536;

/// Ranges of versions, as `(low, high)` pairs.
pub type Ranges = Seq<(Version, Version)>;

/// The map with the same keys, each with the view of its set.
pub open spec fn set_views<I>(sets: Map<I, ProtoSet>) -> Map<I, Ranges> {
    Map::new(|id: I| sets.contains_key(id), |id: I| sets[id]@)
}

/// The number of versions in all sets of an entry together.
pub open spec fn total_span(entry: Map<Seq<char>, Ranges>) -> nat
    decreases entry.dom().len(),
    when entry.dom().finite()
{
    if entry.dom().len() == 0 {
        0
    } else {
        let name = entry.dom().choose();
        span(entry[name]) + total_span(entry.remove(name))
    }
}

/// The total counts each protocol once, whichever is taken first.
pub proof fn lemma_total_span_remove(entry: Map<Seq<char>, Ranges>, name: Seq<char>)
    requires
        entry.dom().finite(),
        entry.contains_key(name),
    ensures
        total_span(entry) == span(entry[name]) + total_span(entry.remove(name)),
    decreases entry.dom().len(),
{
    let first = entry.dom().choose();
    if first != name {
        let rest = entry.remove(first);
        lemma_total_span_remove(rest, name);
        lemma_total_span_remove(entry.remove(name), first);
        assert(rest.remove(name) =~= entry.remove(name).remove(first));
    }
}

/// A protocol that is added to an entry adds the versions of its set to the
/// total.
pub proof fn lemma_total_span_insert(entry: Map<Seq<char>, Ranges>, name: Seq<char>, ranges: Ranges)
    requires
        entry.dom().finite(),
        !entry.contains_key(name),
    ensures
        total_span(entry.insert(name, ranges)) == total_span(entry) + span(ranges),
{
    lemma_total_span_remove(entry.insert(name, ranges), name);
    assert(entry.insert(name, ranges).remove(name) =~= entry);
}

/// Whether two tables hold the same keys with equal sets.
fn same_sets<K: Key>(a: &Table<K, ProtoSet>, b: &Table<K, ProtoSet>) -> (r: bool)
    ensures
        r == (set_views(a@) == set_views(b@)),
{
    let slots = a.entries();
    let others = b.entries();
    if a.len() != b.len() {
        assert(set_views(a@).dom() =~= a@.dom());
        assert(set_views(b@).dom() =~= b@.dom());
        return false;
    }
    let mut i: usize = 0;
    while i < slots.len()
        invariant
            i <= slots.len(),
            slots@ == a.slots(),
            distinct_keys(slots@),
            to_map(slots@) == a@,
            forall|j: int|
                0 <= j < i ==> b@.contains_key((#[trigger] slots@[j]).0.id()) && b@[slots@[j].0.id()]@
                    == slots@[j].1@,
        decreases slots.len() - i,
    {
        proof {
            lemma_to_map(slots@);
        }
        match b.get(&slots[i].0) {
            None => {
                let ghost id = slots@[i as int].0.id();
                assert(set_views(a@).contains_key(id));
                assert(!set_views(b@).contains_key(id));
                return false;
            },
            Some(set) => {
                if !(slots[i].1 == *set) {
                    let ghost id = slots@[i as int].0.id();
                    assert(set_views(a@)[id] == slots@[i as int].1@);
                    assert(set_views(b@)[id] == set@);
                    return false;
                }
            },
        }
        i += 1;
    }
    proof {
        lemma_to_map(slots@);
        assert forall|id: K::Id| a@.contains_key(id) implies b@.contains_key(id) && b@[id]@
            == a@[id]@ by {
            assert(has_key(slots@, id));
            let j = choose|j: int| 0 <= j < slots@.len() && (#[trigger] slots@[j]).0.id() == id;
        }
        assert(a@.dom().subset_of(b@.dom()));
        lemma_subset_equality(a@.dom(), b@.dom());
        assert(set_views(a@) =~= set_views(b@));
    }
    true
}

/// A copy of a table of sets.
fn copy_of<K: Key>(table: &Table<K, ProtoSet>) -> (r: Table<K, ProtoSet>)
    ensures
        set_views(r@) == set_views(table@),
{
    let slots = table.entries();
    let mut out: Table<K, ProtoSet> = Table::new();
    let mut i: usize = 0;
    assert(set_views(out@) =~= set_views(to_map(slots@.take(0))));
    while i < slots.len()
        invariant
            i <= slots.len(),
            set_views(out@) == set_views(to_map(slots@.take(i as int))),
        decreases slots.len() - i,
    {
        let key = slots[i].0.duplicate();
        let set = slots[i].1.clone();
        let ghost before = out@;
        out.insert(key, set);
        proof {
            let seen = slots@.take(i + 1);
            assert(seen.drop_last() == slots@.take(i as int));
            assert(seen.last() == slots@[i as int]);
            let id = slots@[i as int].0.id();
            assert(key.id() == id);
            assert(set_views(out@) =~= set_views(before).insert(id, set@));
            assert(set_views(to_map(seen)) =~= set_views(to_map(slots@.take(i as int))).insert(
                id,
                set@,
            ));
        }
        i += 1;
    }
    assert(slots@.take(i as int) == slots@);
    out
}

// ---------------------------------------------------------------------------
// Entries of known protocols
// ---------------------------------------------------------------------------
/// What a relay supports, protocol by protocol, for known protocols only.
/// The view maps each protocol to the ranges of its set.
#[derive(Debug)]
pub struct ProtoEntry(Table<Protocol, ProtoSet>);

impl View for ProtoEntry {
    type V = Map<Protocol, Ranges>;

    closed spec fn view(&self) -> Map<Protocol, Ranges> {
        set_views(self.0@)
    }
}

impl Default for ProtoEntry {
    /// The entry without protocols.
    fn default() -> (r: ProtoEntry)
        ensures
            r@ == Map::<Protocol, Ranges>::empty(),
    {
        let r = ProtoEntry(Table::new());
        assert(r@ =~= Map::<Protocol, Ranges>::empty());
        r
    }
}

impl Clone for ProtoEntry {
    fn clone(&self) -> (r: ProtoEntry)
        ensures
            r@ == self@,
    {
        ProtoEntry(copy_of(&self.0))
    }
}

impl PartialEq for ProtoEntry {
    /// Two entries are equal when they hold the same protocols with equal
    /// sets, in whatever order.
    fn eq(&self, other: &ProtoEntry) -> (r: bool) {
        same_sets(&self.0, &other.0)
    }
}

impl vstd::std_specs::cmp::PartialEqSpecImpl for ProtoEntry {
    open spec fn obeys_eq_spec() -> bool {
        true
    }

    open spec fn eq_spec(&self, other: &ProtoEntry) -> bool {
        self@ == other@
    }
}

impl Eq for ProtoEntry {

}

impl ProtoEntry {
    /// The protocols of this entry with their sets, each protocol once, in
    /// no particular order.
    pub fn iter(&self) -> (r: &[(Protocol, ProtoSet)])
        ensures
            distinct_keys(r@),
            set_views(to_map(r@)) == self@,
    {
        self.0.entries()
    }

    /// The number of protocols in this entry.
    pub fn len(&self) -> (r: usize)
        ensures
            r == self@.dom().len(),
    {
        assert(self@.dom() =~= self.0@.dom());
        self.0.len()
    }

    /// The set of `protocol`, if the entry has one.
    pub fn get(&self, protocol: &Protocol) -> (r: Option<&ProtoSet>)
        ensures
            match r {
                Some(set) => self@.contains_key(*protocol) && set@ == self@[*protocol]
                    && canonical(set@),
                None => !self@.contains_key(*protocol),
            },
    {
        let r = self.0.get(protocol);
        if let Some(set) = r {
            let _ = set.iter();
        }
        r
    }

    /// Gives `key` the set `value`, in place of the set it had, if any.
    pub fn insert(&mut self, key: Protocol, value: ProtoSet)
        ensures
            final(self)@ == old(self)@.insert(key, value@),
    {
        self.0.insert(key, value);
        assert(self@ =~= old(self)@.insert(key, value@));
    }

    /// Takes `key` out of the entry and returns its set, if it had one.
    pub fn remove(&mut self, key: &Protocol) -> (r: Option<ProtoSet>)
        ensures
            final(self)@ == old(self)@.remove(*key),
            match r {
                Some(set) => old(self)@.contains_key(*key) && set@ == old(self)@[*key],
                None => !old(self)@.contains_key(*key),
            },
    {
        let r = self.0.remove(key);
        assert(self@ =~= old(self)@.remove(*key));
        r
    }

    /// Whether the entry has no protocol.
    pub fn is_empty(&self) -> (r: bool)
        ensures
            r == (self@.dom().len() == 0),
            r == (self@ == Map::<Protocol, Ranges>::empty()),
    {
        let r = self.0.is_empty();
        proof {
            assert(self@.dom() =~= self.0@.dom());
            if r {
                assert(self@ =~= Map::<Protocol, Ranges>::empty());
            } else {
                assert(self.0@.dom().len() != 0);
                assert(self@.dom().len() != 0);
            }
        }
        r
    }
}

// ---------------------------------------------------------------------------
// Entries of protocols of any name
// ---------------------------------------------------------------------------
/// What a relay claims to support, protocol by protocol, where the names of
/// the protocols need not be known. The view maps each name to the ranges of
/// its set.
#[derive(Debug)]
pub struct UnvalidatedProtoEntry(Table<UnknownProtocol, ProtoSet>);

impl View for UnvalidatedProtoEntry {
    type V = Map<Seq<char>, Ranges>;

    closed spec fn view(&self) -> Map<Seq<char>, Ranges> {
        set_views(self.0@)
    }
}

impl Default for UnvalidatedProtoEntry {
    /// The entry without protocols.
    fn default() -> (r: UnvalidatedProtoEntry)
        ensures
            r@ == Map::<Seq<char>, Ranges>::empty(),
    {
        let r = UnvalidatedProtoEntry(Table::new());
        assert(r@ =~= Map::<Seq<char>, Ranges>::empty());
        r
    }
}

impl Clone for UnvalidatedProtoEntry {
    fn clone(&self) -> (r: UnvalidatedProtoEntry)
        ensures
            r@ == self@,
    {
        UnvalidatedProtoEntry(copy_of(&self.0))
    }
}

impl PartialEq for UnvalidatedProtoEntry {
    /// Two entries are equal when they hold the same names with equal sets,
    /// in whatever order.
    fn eq(&self, other: &UnvalidatedProtoEntry) -> (r: bool) {
        same_sets(&self.0, &other.0)
    }
}

impl vstd::std_specs::cmp::PartialEqSpecImpl for UnvalidatedProtoEntry {
    open spec fn obeys_eq_spec() -> bool {
        true
    }

    open spec fn eq_spec(&self, other: &UnvalidatedProtoEntry) -> bool {
        self@ == other@
    }
}

impl Eq for UnvalidatedProtoEntry {

}

impl UnvalidatedProtoEntry {
    /// The protocols of this entry with their sets, each name once, in no
    /// particular order.
    pub fn iter(&self) -> (r: &[(UnknownProtocol, ProtoSet)])
        ensures
            distinct_keys(r@),
            set_views(to_map(r@)) == self@,
            self@.dom().finite(),
    {
        assert(self@.dom() =~= self.0@.dom());
        self.0.entries()
    }

    /// The set of `protocol`, if the entry has one.
    pub fn get(&self, protocol: &UnknownProtocol) -> (r: Option<&ProtoSet>)
        ensures
            match r {
                Some(set) => self@.contains_key(protocol@) && set@ == self@[protocol@]
                    && canonical(set@),
                None => !self@.contains_key(protocol@),
            },
    {
        let r = self.0.get(protocol);
        if let Some(set) = r {
            let _ = set.iter();
        }
        r
    }

    /// Gives `key` the set `value`, in place of the set it had, if any.
    pub fn insert(&mut self, key: UnknownProtocol, value: ProtoSet)
        ensures
            final(self)@ == old(self)@.insert(key@, value@),
    {
        self.0.insert(key, value);
        assert(self@ =~= old(self)@.insert(key@, value@));
    }

    /// Takes `key` out of the entry and returns its set, if it had one.
    pub fn remove(&mut self, key: &UnknownProtocol) -> (r: Option<ProtoSet>)
        ensures
            final(self)@ == old(self)@.remove(key@),
            match r {
                Some(set) => old(self)@.contains_key(key@) && set@ == old(self)@[key@],
                None => !old(self)@.contains_key(key@),
            },
    {
        let r = self.0.remove(key);
        assert(self@ =~= old(self)@.remove(key@));
        r
    }

    /// Whether the entry has no protocol.
    pub fn is_empty(&self) -> (r: bool)
        ensures
            r == (self@.dom().len() == 0),
            r == (self@ == Map::<Seq<char>, Ranges>::empty()),
    {
        let r = self.0.is_empty();
        proof {
            assert(self@.dom() =~= self.0@.dom());
            if r {
                assert(self@ =~= Map::<Seq<char>, Ranges>::empty());
            } else {
                assert(self.0@.dom().len() != 0);
                assert(self@.dom().len() != 0);
            }
        }
        r
    }

    /// Whether this entry supports `vers` of `proto`: it has a set for the
    /// protocol, and the set contains the version.
    pub fn supports_protocol(&self, proto: &UnknownProtocol, vers: Version) -> (r: bool)
        ensures
            r == (self@.contains_key(proto@) && covers(self@[proto@], vers)),
    {
        match self.get(proto) {
            Some(set) => set.contains(vers),
            None => false,
        }
    }

    /// Whether this entry supports `vers` of `proto` or something later: it
    /// has a set for the protocol, and a range of the set ends at `vers` or
    /// above. The version itself need not be in the set.
    pub fn supports_protocol_or_later(&self, proto: &UnknownProtocol, vers: Version) -> (r: bool)
        ensures
            r == (self@.contains_key(proto@) && reaches(self@[proto@], vers)),
    {
        match self.get(proto) {
            Some(set) => {
                let pairs = set.iter();
                let mut i: usize = 0;
                while i < pairs.len()
                    invariant
                        i <= pairs.len(),
                        self@.contains_key(proto@) && self@[proto@] == pairs@,
                        forall|j: int| 0 <= j < i ==> (#[trigger] pairs@[j]).1 < vers,
                    decreases pairs.len() - i,
                {
                    if pairs[i].1 >= vers {
                        return true;
                    }
                    i += 1;
                }
                false
            },
            None => false,
        }
    }
}

/// Some range ends at `version` or above.
pub open spec fn reaches(ranges: Ranges, version: Version) -> bool {
    exists|i: int| 0 <= i < ranges.len() && (#[trigger] ranges[i]).1 >= version
}

// ---------------------------------------------------------------------------
// The text form
// ---------------------------------------------------------------------------
/// The name and the ranges that a clause `name=versions` denotes. The first
/// `=` ends the name; a clause without one is unparseable.
pub open spec fn parse_clause(clause: Seq<char>) -> Result<(Seq<char>, Ranges), ProtoverError> {
    if clause.contains('=') {
        let i = index_of(clause, '=');
        match parse_version_set(clause.skip(i + 1)) {
            Ok(ranges) => Ok((clause.take(i), ranges)),
            Err(e) => Err(e),
        }
    } else {
        Err(ProtoverError::Unparseable)
    }
}

/// The entry that the clauses denote when any name is taken. The first
/// clause that fails decides the error; within a clause, the versions are
/// read before the name is looked at. Of two clauses of one name the later
/// one counts.
pub open spec fn parse_unvalidated_clauses(clauses: Seq<Seq<char>>, any_len: bool) -> Result<
    Map<Seq<char>, Ranges>,
    ProtoverError,
>
    decreases clauses.len(),
{
    if clauses.len() == 0 {
        Ok(Map::empty())
    } else {
        match parse_unvalidated_clauses(clauses.drop_last(), any_len) {
            Err(e) => Err(e),
            Ok(entry) => match parse_clause(clauses.last()) {
                Err(e) => Err(e),
                Ok((name, ranges)) => match name_defect(name, any_len) {
                    Some(e) => Err(e),
                    None => Ok(entry.insert(name, ranges)),
                },
            },
        }
    }
}

/// The entry that the clauses denote when only known protocols are taken.
/// The first clause that fails decides the error; within a clause, the
/// versions are read first, then the name is looked up, then the set is
/// refused if it holds more than `MAX_PROTOCOLS_TO_EXPAND` versions.
pub open spec fn parse_clauses(clauses: Seq<Seq<char>>) -> Result<
    Map<Protocol, Ranges>,
    ProtoverError,
>
    decreases clauses.len(),
{
    if clauses.len() == 0 {
        Ok(Map::empty())
    } else {
        match parse_clauses(clauses.drop_last()) {
            Err(e) => Err(e),
            Ok(entry) => match parse_clause(clauses.last()) {
                Err(e) => Err(e),
                Ok((name, ranges)) => match known_protocol(name) {
                    None => Err(ProtoverError::UnknownProtocol),
                    Some(protocol) => if span(ranges) > MAX_PROTOCOLS_TO_EXPAND {
                        Err(ProtoverError::ExceedsMax)
                    } else {
                        Ok(entry.insert(protocol, ranges))
                    },
                },
            },
        }
    }
}

/// The entry that a text denotes when any name is taken: clauses
/// `name=versions` with exactly one space between them.
pub open spec fn parse_unvalidated_entry(text: Seq<char>, any_len: bool) -> Result<
    Map<Seq<char>, Ranges>,
    ProtoverError,
> {
    parse_unvalidated_clauses(split(text, ' '), any_len)
}

/// The entry that a text denotes when only known protocols are taken:
/// clauses `name=versions` with exactly one space between them.
pub open spec fn parse_entry(text: Seq<char>) -> Result<Map<Protocol, Ranges>, ProtoverError> {
    parse_clauses(split(text, ' '))
}

/// Whether a clause is taken when any name is taken: it parses, and its
/// name is in order.
pub open spec fn clause_taken(clause: Seq<char>, any_len: bool) -> bool {
    parse_clause(clause) is Ok && name_defect(parse_clause(clause)->Ok_0.0, any_len) is None
}

/// Whether a clause is taken when only known protocols are taken: it
/// parses, its name is that of a known protocol, and its set is not too
/// large.
pub open spec fn known_clause_taken(clause: Seq<char>) -> bool {
    &&& parse_clause(clause) is Ok
    &&& known_protocol(parse_clause(clause)->Ok_0.0) is Some
    &&& span(parse_clause(clause)->Ok_0.1) <= MAX_PROTOCOLS_TO_EXPAND
}

/// Clauses are read as an entry exactly if each of them is taken; the entry
/// then has the names of the clauses, and no others.
pub proof fn lemma_unvalidated_accepts(clauses: Seq<Seq<char>>, any_len: bool)
    ensures
        parse_unvalidated_clauses(clauses, any_len) is Ok <==> forall|i: int|
            0 <= i < clauses.len() ==> clause_taken(#[trigger] clauses[i], any_len),
        parse_unvalidated_clauses(clauses, any_len) is Ok ==> forall|name: Seq<char>|
            #![trigger parse_unvalidated_clauses(clauses, any_len)->Ok_0.contains_key(name)]
            parse_unvalidated_clauses(clauses, any_len)->Ok_0.contains_key(name) <==> exists|i: int|
                0 <= i < clauses.len() && parse_clause(#[trigger] clauses[i])->Ok_0.0 == name,
    decreases clauses.len(),
{
    if clauses.len() > 0 {
        let head = clauses.drop_last();
        let n = clauses.len() - 1;
        lemma_unvalidated_accepts(head, any_len);
        assert forall|i: int| 0 <= i < head.len() implies head[i] == clauses[i] by {}
        if parse_unvalidated_clauses(clauses, any_len) is Ok {
            let entry = parse_unvalidated_clauses(clauses, any_len)->Ok_0;
            let before = parse_unvalidated_clauses(head, any_len)->Ok_0;
            assert forall|i: int| 0 <= i < clauses.len() implies clause_taken(
                #[trigger] clauses[i],
                any_len,
            ) by {
                if i < n {
                    assert(clause_taken(head[i], any_len));
                }
            }
            assert forall|name: Seq<char>| entry.contains_key(name) <==> exists|i: int|
                0 <= i < clauses.len() && parse_clause(#[trigger] clauses[i])->Ok_0.0 == name by {
                if entry.contains_key(name) {
                    if parse_clause(clauses[n])->Ok_0.0 == name {
                    } else {
                        assert(before.contains_key(name));
                        let i = choose|i: int|
                            0 <= i < head.len() && parse_clause(#[trigger] head[i])->Ok_0.0 == name;
                        assert(parse_clause(clauses[i])->Ok_0.0 == name);
                    }
                }
                if exists|i: int|
                    0 <= i < clauses.len() && parse_clause(#[trigger] clauses[i])->Ok_0.0 == name {
                    let i = choose|i: int|
                        0 <= i < clauses.len() && parse_clause(#[trigger] clauses[i])->Ok_0.0
                            == name;
                    if i < n {
                        assert(parse_clause(head[i])->Ok_0.0 == name);
                    }
                }
            }
        } else {
            if forall|i: int| 0 <= i < clauses.len() ==> clause_taken(#[trigger] clauses[i], any_len) {
                assert forall|i: int| 0 <= i < head.len() implies clause_taken(
                    #[trigger] head[i],
                    any_len,
                ) by {
                    assert(clause_taken(clauses[i], any_len));
                }
                assert(clause_taken(clauses[n], any_len));
            }
        }
    }
}

/// Clauses are read as an entry of known protocols exactly if each of them
/// is taken.
pub proof fn lemma_entry_accepts(clauses: Seq<Seq<char>>)
    ensures
        parse_clauses(clauses) is Ok <==> forall|i: int|
            0 <= i < clauses.len() ==> known_clause_taken(#[trigger] clauses[i]),
    decreases clauses.len(),
{
    if clauses.len() > 0 {
        let head = clauses.drop_last();
        let n = clauses.len() - 1;
        lemma_entry_accepts(head);
        assert forall|i: int| 0 <= i < head.len() implies head[i] == clauses[i] by {}
        if parse_clauses(clauses) is Ok {
            assert forall|i: int| 0 <= i < clauses.len() implies known_clause_taken(
                #[trigger] clauses[i],
            ) by {
                if i < n {
                    assert(known_clause_taken(head[i]));
                }
            }
        } else {
            if forall|i: int| 0 <= i < clauses.len() ==> known_clause_taken(#[trigger] clauses[i]) {
                assert forall|i: int| 0 <= i < head.len() implies known_clause_taken(
                    #[trigger] head[i],
                ) by {
                    assert(known_clause_taken(clauses[i]));
                }
                assert(known_clause_taken(clauses[n]));
            }
        }
    }
}

/// Once a prefix of the clauses fails, all of them fail in the same way.
pub proof fn lemma_parse_unvalidated_fails(clauses: Seq<Seq<char>>, any_len: bool, k: int)
    requires
        0 <= k <= clauses.len(),
        parse_unvalidated_clauses(clauses.take(k), any_len) is Err,
    ensures
        parse_unvalidated_clauses(clauses, any_len) == parse_unvalidated_clauses(
            clauses.take(k),
            any_len,
        ),
    decreases clauses.len(),
{
    if k == clauses.len() {
        assert(clauses.take(k) == clauses);
    } else {
        assert(clauses.drop_last().take(k) == clauses.take(k));
        lemma_parse_unvalidated_fails(clauses.drop_last(), any_len, k);
    }
}

/// Once a prefix of the clauses fails, all of them fail in the same way.
pub proof fn lemma_parse_clauses_fails(clauses: Seq<Seq<char>>, k: int)
    requires
        0 <= k <= clauses.len(),
        parse_clauses(clauses.take(k)) is Err,
    ensures
        parse_clauses(clauses) == parse_clauses(clauses.take(k)),
    decreases clauses.len(),
{
    if k == clauses.len() {
        assert(clauses.take(k) == clauses);
    } else {
        assert(clauses.drop_last().take(k) == clauses.take(k));
        lemma_parse_clauses_fails(clauses.drop_last(), k);
    }
}

/// Reads one clause: the name before the first `=`, and the set after it.
fn read_clause(clause: &[char]) -> (r: Result<(String, ProtoSet), ProtoverError>)
    ensures
        match r {
            Ok((name, set)) => parse_clause(clause@) == Ok::<_, ProtoverError>((name@, set@)),
            Err(e) => parse_clause(clause@) == Err::<(Seq<char>, Ranges), _>(e),
        },
{
    if !has_char(clause, '=') {
        return Err(ProtoverError::Unparseable);
    }
    let i = position(clause, '=');
    proof {
        lemma_index_of(clause@, '=');
    }
    assert(i < clause.len());
    match ProtoSet::from_chars(&clause[i + 1..clause.len()]) {
        Ok(set) => Ok((to_text(&clause[0..i]), set)),
        Err(e) => Err(e),
    }
}

/// The view of an entry that was built, or the error that kept it from
/// being built.
pub open spec fn built_unvalidated(r: Result<UnvalidatedProtoEntry, ProtoverError>) -> Result<
    Map<Seq<char>, Ranges>,
    ProtoverError,
> {
    match r {
        Ok(entry) => Ok(entry@),
        Err(e) => Err(e),
    }
}

/// The view of an entry that was built, or the error that kept it from
/// being built.
pub open spec fn built_entry(r: Result<ProtoEntry, ProtoverError>) -> Result<
    Map<Protocol, Ranges>,
    ProtoverError,
> {
    match r {
        Ok(entry) => Ok(entry@),
        Err(e) => Err(e),
    }
}

impl UnvalidatedProtoEntry {
    /// Reads an entry such as `"Link=3-4 Cons=5"`. Any name of 1 to
    /// `MAX_PROTOCOL_NAME_LENGTH` characters is taken. Leading, trailing or
    /// doubled spaces make clauses without `=`, which do not parse.
    pub fn from_str(protocol_entry: &str) -> (r: Result<UnvalidatedProtoEntry, ProtoverError>)
        ensures
            built_unvalidated(r) == parse_unvalidated_entry(protocol_entry@, false),
    {
        UnvalidatedProtoEntry::read(protocol_entry, false)
    }

    /// Reads an entry as `from_str` does, but takes names of any length.
    pub fn from_str_any_len(protocol_entry: &str) -> (r: Result<
        UnvalidatedProtoEntry,
        ProtoverError,
    >)
        ensures
            built_unvalidated(r) == parse_unvalidated_entry(protocol_entry@, true),
    {
        UnvalidatedProtoEntry::read(protocol_entry, true)
    }

    /// Reads an entry, with or without a limit on the length of names.
    fn read(protocol_entry: &str, any_len: bool) -> (r: Result<UnvalidatedProtoEntry, ProtoverError>)
        ensures
            built_unvalidated(r) == parse_unvalidated_entry(protocol_entry@, any_len),
    {
        let chars = to_chars(protocol_entry);
        let pieces = split_at_char(chars.as_slice(), ' ');
        let ghost clauses = split(protocol_entry@, ' ');
        let mut parsed = UnvalidatedProtoEntry::default();
        let mut k: usize = 0;
        assert(clauses.take(0) == Seq::<Seq<char>>::empty());
        while k < pieces.len()
            invariant
                k <= pieces.len(),
                views(pieces@) == clauses,
                clauses == split(protocol_entry@, ' '),
                parse_unvalidated_clauses(clauses.take(k as int), any_len) == Ok::<
                    _,
                    ProtoverError,
                >(parsed@),
            decreases pieces.len() - k,
        {
            proof {
                let seen = clauses.take(k + 1);
                assert(seen.drop_last() == clauses.take(k as int));
                assert(seen.last() == pieces@[k as int]@);
            }
            let ghost seen = clauses.take(k + 1);
            match read_clause(pieces[k].as_slice()) {
                Err(e) => {
                    proof {
                        assert(parse_unvalidated_clauses(seen, any_len) == Err::<
                            Map<Seq<char>, Ranges>,
                            _,
                        >(e));
                        lemma_parse_unvalidated_fails(clauses, any_len, k + 1);
                    }
                    return Err(e);
                },
                Ok((name, versions)) => {
                    let named = if any_len {
                        UnknownProtocol::from_str_any_len(name.as_str())
                    } else {
                        UnknownProtocol::from_str(name.as_str())
                    };
                    match named {
                        Err(e) => {
                            proof {
                                assert(parse_unvalidated_clauses(seen, any_len) == Err::<
                                    Map<Seq<char>, Ranges>,
                                    _,
                                >(e));
                                lemma_parse_unvalidated_fails(clauses, any_len, k + 1);
                            }
                            return Err(e);
                        },
                        Ok(protocol) => {
                            parsed.insert(protocol, versions);
                        },
                    }
                },
            }
            k += 1;
        }
        assert(clauses.take(k as int) == clauses);
        Ok(parsed)
    }
}

impl ProtoEntry {
    /// Reads an entry such as `"Cons=3-4 HSDir=1"`. Only the names of known
    /// protocols are taken, and no set of more than
    /// `MAX_PROTOCOLS_TO_EXPAND` versions. Leading, trailing or doubled
    /// spaces make clauses without `=`, which do not parse.
    pub fn from_str(protocol_entry: &str) -> (r: Result<ProtoEntry, ProtoverError>)
        ensures
            built_entry(r) == parse_entry(protocol_entry@),
    {
        let chars = to_chars(protocol_entry);
        let pieces = split_at_char(chars.as_slice(), ' ');
        let ghost clauses = split(protocol_entry@, ' ');
        let mut parsed = ProtoEntry::default();
        let mut k: usize = 0;
        assert(clauses.take(0) == Seq::<Seq<char>>::empty());
        while k < pieces.len()
            invariant
                k <= pieces.len(),
                views(pieces@) == clauses,
                clauses == split(protocol_entry@, ' '),
                parse_clauses(clauses.take(k as int)) == Ok::<_, ProtoverError>(parsed@),
            decreases pieces.len() - k,
        {
            proof {
                let seen = clauses.take(k + 1);
                assert(seen.drop_last() == clauses.take(k as int));
                assert(seen.last() == pieces@[k as int]@);
            }
            let ghost seen = clauses.take(k + 1);
            match read_clause(pieces[k].as_slice()) {
                Err(e) => {
                    proof {
                        assert(parse_clauses(seen) == Err::<Map<Protocol, Ranges>, _>(e));
                        lemma_parse_clauses_fails(clauses, k + 1);
                    }
                    return Err(e);
                },
                Ok((name, versions)) => {
                    match Protocol::from_str(name.as_str()) {
                        Err(e) => {
                            proof {
                                assert(parse_clauses(seen) == Err::<Map<Protocol, Ranges>, _>(e));
                                lemma_parse_clauses_fails(clauses, k + 1);
                            }
                            return Err(e);
                        },
                        Ok(protocol) => {
                            if versions.len_exceeds(MAX_PROTOCOLS_TO_EXPAND) {
                                proof {
                                    assert(parse_clauses(seen) == Err::<Map<Protocol, Ranges>, _>(
                                        ProtoverError::ExceedsMax,
                                    ));
                                    lemma_parse_clauses_fails(clauses, k + 1);
                                }
                                return Err(ProtoverError::ExceedsMax);
                            }
                            parsed.insert(protocol, versions);
                        },
                    }
                },
            }
            k += 1;
        }
        assert(clauses.take(k as int) == clauses);
        Ok(parsed)
    }
}

/// How a clause is written: the name, `=`, and the set.
pub open spec fn clause_text(name: Seq<char>, ranges: Ranges) -> Seq<char> {
    name + seq!['='] + version_set_text(ranges)
}

/// How the clauses of the given names are written.
pub open spec fn clause_texts(names: Seq<Seq<char>>, entry: Map<Seq<char>, Ranges>) -> Seq<
    Seq<char>,
> {
    Seq::new(names.len(), |i: int| clause_text(names[i], entry[names[i]]))
}

/// How an entry is written: its clauses in the ascending order of their
/// names, with one space between them.
pub open spec fn entry_text(entry: Map<Seq<char>, Ranges>) -> Seq<char> {
    join(clause_texts(sorted_texts(entry.dom()), entry), ' ')
}

/// The entry of any names that holds the protocols of `entry` under their
/// names.
pub open spec fn named(entry: Map<Protocol, Ranges>) -> Map<Seq<char>, Ranges> {
    Map::new(
        |name: Seq<char>|
            known_protocol(name) is Some && entry.contains_key(known_protocol(name)->0),
        |name: Seq<char>| entry[known_protocol(name)->0],
    )
}

/// Under their names the protocols keep their sets, and no name stands for
/// two protocols: nothing is lost.
pub proof fn lemma_named_lossless(entry: Map<Protocol, Ranges>, protocol: Protocol)
    ensures
        named(entry).contains_key(protocol_name(protocol)) <==> entry.contains_key(protocol),
        entry.contains_key(protocol) ==> named(entry)[protocol_name(protocol)] == entry[protocol],
        forall|name: Seq<char>| #[trigger]
            named(entry).contains_key(name) ==> known_protocol(name) is Some,
{
    lemma_protocol_names(protocol);
}

/// Giving a protocol a set gives its name that set.
pub proof fn lemma_named_insert(entry: Map<Protocol, Ranges>, protocol: Protocol, ranges: Ranges)
    ensures
        named(entry.insert(protocol, ranges)) == named(entry).insert(
            protocol_name(protocol),
            ranges,
        ),
{
    lemma_protocol_names(protocol);
    assert(named(entry.insert(protocol, ranges)) =~= named(entry).insert(
        protocol_name(protocol),
        ranges,
    ));
}

impl UnvalidatedProtoEntry {
    /// Writes the entry as text: the clauses `name=versions` in the ascending
    /// order of the names, with one space between them.
    pub fn to_string(&self) -> (r: String)
        ensures
            r@ == entry_text(self@),
    {
        let slots = self.iter();
        let mut names: Vec<Vec<char>> = Vec::new();
        let mut i: usize = 0;
        while i < slots.len()
            invariant
                i <= slots.len(),
                names.len() == i,
                forall|j: int| 0 <= j < i ==> (#[trigger] names@[j])@ == slots@[j].0@,
            decreases slots.len() - i,
        {
            names.push(to_chars(slots[i].0.as_str()));
            i += 1;
        }
        assert forall|a: int, b: int| 0 <= a < b < names.len() implies names@[a]@ != names@[b]@ by {
            assert(slots@[a].0.id() != slots@[b].0.id());
        }
        let order = ascending_order(&names);
        let ghost sorted = arranged(names@, order@);
        proof {
            lemma_to_map(slots@);
            assert forall|t: Seq<char>| sorted.contains(t) <==> self@.dom().contains(t) by {
                if sorted.contains(t) {
                    let k = choose|k: int| 0 <= k < sorted.len() && sorted[k] == t;
                    assert(slots@[order@[k] as int].0.id() == t);
                    assert(to_map(slots@).contains_key(t));
                }
                if self@.dom().contains(t) {
                    assert(to_map(slots@).contains_key(t));
                    assert(has_key(slots@, t));
                    let j = choose|j: int| 0 <= j < slots@.len() && (#[trigger] slots@[j]).0.id()
                        == t;
                    assert(lists(order@, j));
                    let k = choose|k: int| 0 <= k < order@.len() && #[trigger] order@[k] == j;
                    assert(sorted[k] == t);
                }
            }
            lemma_sorted_texts_is(sorted, self@.dom());
        }
        let ghost texts = clause_texts(sorted, self@);
        let mut out: Vec<char> = Vec::new();
        let mut k: usize = 0;
        assert(texts.take(0) == Seq::<Seq<char>>::empty());
        while k < order.len()
            invariant
                k <= order.len(),
                order.len() == slots.len(),
                names.len() == slots.len(),
                texts.len() == order.len(),
                is_arrangement(order@, slots@.len()),
                distinct_keys(slots@),
                set_views(to_map(slots@)) == self@,
                sorted == arranged(names@, order@),
                texts == clause_texts(sorted, self@),
                forall|j: int| 0 <= j < names.len() ==> (#[trigger] names@[j])@ == slots@[j].0@,
                out@ == join(texts.take(k as int), ' '),
            decreases order.len() - k,
        {
            let at = order[k];
            let ghost before = out@;
            if k > 0 {
                out.push(' ');
            }
            push_all(&mut out, names[at].as_slice());
            out.push('=');
            let versions = slots[at].1.to_chars();
            push_all(&mut out, versions.as_slice());
            proof {
                lemma_to_map(slots@);
                let name = names@[at as int]@;
                assert(sorted[k as int] == name);
                assert(slots@[at as int].0.id() == name);
                assert(self@[name] == slots@[at as int].1@);
                let text = clause_text(name, self@[name]);
                assert(texts[k as int] == text);
                assert(texts.take(k + 1) == texts.take(k as int).push(text));
                lemma_join_push(texts.take(k as int), text, ' ');
                if k > 0 {
                    assert(out@ == before + seq![' '] + text);
                } else {
                    assert(out@ == text);
                }
            }
            k += 1;
        }
        assert(texts.take(k as int) == texts);
        to_text(out.as_slice())
    }
}

impl From<ProtoEntry> for UnvalidatedProtoEntry {
    /// The same entry, with the protocols under their names.
    fn from(proto_entry: ProtoEntry) -> (r: UnvalidatedProtoEntry)
        ensures
            r@ == named(proto_entry@),
    {
        let slots = proto_entry.iter();
        let mut out = UnvalidatedProtoEntry::default();
        let mut i: usize = 0;
        assert(out@ =~= named(set_views(to_map(slots@.take(0)))));
        while i < slots.len()
            invariant
                i <= slots.len(),
                out@ == named(set_views(to_map(slots@.take(i as int)))),
            decreases slots.len() - i,
        {
            let name = UnknownProtocol::from(slots[i].0);
            let set = slots[i].1.clone();
            proof {
                let seen = slots@.take(i + 1);
                let done = set_views(to_map(slots@.take(i as int)));
                assert(seen.drop_last() == slots@.take(i as int));
                assert(seen.last() == slots@[i as int]);
                assert(set_views(to_map(seen)) =~= done.insert(slots@[i as int].0, set@));
                lemma_named_insert(done, slots@[i as int].0, set@);
            }
            out.insert(name, set);
            i += 1;
        }
        assert(slots@.take(i as int) == slots@);
        out
    }
}

/// What `from` returns is stated by its `ensures`, over views; no value of
/// the type can be written down in a specification.
impl FromSpecImpl<ProtoEntry> for UnvalidatedProtoEntry {
    open spec fn obeys_from_spec() -> bool {
        false
    }

    open spec fn from_spec(proto_entry: ProtoEntry) -> UnvalidatedProtoEntry {
        arbitrary()
    }
}

impl ProtoEntry {
    /// Writes the entry as text: the clauses `name=versions` in the ascending
    /// order of the names, with one space between them.
    pub fn to_string(&self) -> (r: String)
        ensures
            r@ == entry_text(named(self@)),
    {
        UnvalidatedProtoEntry::from(self.clone()).to_string()
    }
}

// ---------------------------------------------------------------------------
// Counting versions
// ---------------------------------------------------------------------------
/// The number of versions in the first `k` slots.
spec fn prefix_total(slots: Seq<(UnknownProtocol, ProtoSet)>, k: int) -> nat {
    total_span(set_views(to_map(slots.take(k))))
}

/// Each slot adds the versions of its set to the total.
proof fn lemma_prefix_total(slots: Seq<(UnknownProtocol, ProtoSet)>, k: int)
    requires
        distinct_keys(slots),
        0 <= k < slots.len(),
    ensures
        prefix_total(slots, k + 1) == prefix_total(slots, k) + span(slots[k].1@),
        prefix_total(slots, 0) == 0,
{
    let head = slots.take(k);
    let seen = slots.take(k + 1);
    let name = slots[k].0.id();
    assert(seen.drop_last() == head);
    assert(seen.last() == slots[k]);
    assert(distinct_keys(head));
    lemma_to_map(head);
    if to_map(head).contains_key(name) {
        assert(has_key(head, name));
        let j = choose|j: int| 0 <= j < head.len() && (#[trigger] head[j]).0.id() == name;
        assert(head[j] == slots[j]);
        assert(slots[j].0.id() != slots[k].0.id());
    }
    let before = set_views(to_map(head));
    assert(before.dom() =~= to_map(head).dom());
    assert(set_views(to_map(seen)) =~= before.insert(name, slots[k].1@));
    lemma_total_span_insert(before, name, slots[k].1@);
    assert(set_views(to_map(slots.take(0))).dom() =~= Set::<Seq<char>>::empty());
}

/// What the first slots count is at most what all of them count.
proof fn lemma_prefix_total_grows(slots: Seq<(UnknownProtocol, ProtoSet)>, k: int)
    requires
        distinct_keys(slots),
        0 <= k <= slots.len(),
    ensures
        prefix_total(slots, k) <= prefix_total(slots, slots.len() as int),
    decreases slots.len() - k,
{
    if k < slots.len() {
        lemma_prefix_total(slots, k);
        lemma_prefix_total_grows(slots, k + 1);
    }
}

impl UnvalidatedProtoEntry {
    /// The number of versions in all sets of this entry together. The
    /// number has to fit in `usize`.
    pub fn len(&self) -> (r: usize)
        requires
            total_span(self@) <= usize::MAX,
        ensures
            r == total_span(self@),
    {
        let slots = self.iter();
        let mut total: usize = 0;
        let mut i: usize = 0;
        proof {
            assert(slots@.take(slots@.len() as int) == slots@);
            if slots.len() > 0 {
                lemma_prefix_total(slots@, 0);
            } else {
                assert(set_views(to_map(slots@.take(0))).dom() =~= Set::<Seq<char>>::empty());
            }
        }
        while i < slots.len()
            invariant
                i <= slots.len(),
                distinct_keys(slots@),
                prefix_total(slots@, slots@.len() as int) <= usize::MAX,
                total == prefix_total(slots@, i as int),
            decreases slots.len() - i,
        {
            proof {
                lemma_prefix_total(slots@, i as int);
                lemma_prefix_total_grows(slots@, i + 1);
            }
            total += slots[i].1.len();
            i += 1;
        }
        total
    }

    /// Whether the sets of this entry hold more than `limit` versions
    /// together. Unlike `len`, this never overflows.
    pub fn len_exceeds(&self, limit: usize) -> (r: bool)
        ensures
            r == (total_span(self@) > limit),
    {
        let slots = self.iter();
        let mut total: usize = 0;
        let mut i: usize = 0;
        proof {
            assert(slots@.take(slots@.len() as int) == slots@);
            if slots.len() > 0 {
                lemma_prefix_total(slots@, 0);
            } else {
                assert(set_views(to_map(slots@.take(0))).dom() =~= Set::<Seq<char>>::empty());
            }
        }
        while i < slots.len()
            invariant
                i <= slots.len(),
                distinct_keys(slots@),
                total_span(self@) == prefix_total(slots@, slots@.len() as int),
                total == prefix_total(slots@, i as int),
                total <= limit,
            decreases slots.len() - i,
        {
            proof {
                lemma_prefix_total(slots@, i as int);
                lemma_prefix_total_grows(slots@, i + 1);
            }
            if slots[i].1.len_exceeds(limit - total) {
                return true;
            }
            total += slots[i].1.len();
            i += 1;
        }
        false
    }
}

// ---------------------------------------------------------------------------
// What this implementation supports
// ---------------------------------------------------------------------------
/// The protocols that this implementation supports, each with its versions,
/// as the text of an entry.
pub open spec fn supported_protocols_text() -> Seq<char> {
    "Cons=1-2 Desc=1-2 DirCache=1-2 HSDir=1-2 HSIntro=3-4 HSRend=1-2 Link=1-5 LinkAuth=1,3 Microdesc=1-2 Relay=1-2"@
}

/// The protocols that this implementation supports, each with its versions,
/// as the text of an entry.
pub fn get_supported_protocols() -> (r: &'static str)
    ensures
        r@ == supported_protocols_text(),
{
    "Cons=1-2 Desc=1-2 DirCache=1-2 HSDir=1-2 HSIntro=3-4 HSRend=1-2 Link=1-5 LinkAuth=1,3 Microdesc=1-2 Relay=1-2"
}

/// The ranges that `supported` has for the protocol called `name`: none if
/// the name is not that of a known protocol, or if the protocol is not in
/// the entry.
pub open spec fn supported_ranges(supported: Map<Protocol, Ranges>, name: Seq<char>) -> Ranges {
    match known_protocol(name) {
        Some(protocol) => if supported.contains_key(protocol) {
            supported[protocol]
        } else {
            Seq::empty()
        },
        None => Seq::empty(),
    }
}

/// What `claimed` holds beyond `supported`: each protocol with the versions
/// that are claimed for it and not supported, unless there is no such
/// version.
pub open spec fn unsupported(
    claimed: Map<Seq<char>, Ranges>,
    supported: Map<Protocol, Ranges>,
) -> Map<Seq<char>, Ranges> {
    Map::new(
        |name: Seq<char>|
            claimed.contains_key(name) && difference(
                claimed[name],
                supported_ranges(supported, name),
            ).len() > 0,
        |name: Seq<char>| difference(claimed[name], supported_ranges(supported, name)),
    )
}

impl ProtoEntry {
    /// The entry of what this implementation supports, read from
    /// `get_supported_protocols`.
    pub fn supported() -> (r: Result<ProtoEntry, ProtoverError>)
        ensures
            built_entry(r) == parse_entry(supported_protocols_text()),
            built_entry(r) == Ok::<_, ProtoverError>(supported_protocols()),
    {
        proof {
            lemma_supported_protocols();
        }
        ProtoEntry::from_str(get_supported_protocols())
    }
}

impl UnvalidatedProtoEntry {
    /// What this entry claims and `supported` does not hold: each protocol
    /// of this entry with the versions that `supported` lacks, unless it
    /// lacks none. A protocol that is not known, or not in `supported`,
    /// keeps all its versions.
    pub fn unsupported_by(&self, supported: &ProtoEntry) -> (r: UnvalidatedProtoEntry)
        ensures
            r@ == unsupported(self@, supported@),
            forall|name: Seq<char>| #[trigger]
                r@.contains_key(name) ==> self@.contains_key(name) && is_difference(
                    r@[name],
                    self@[name],
                    supported_ranges(supported@, name),
                ),
    {
        let slots = self.iter();
        let emptyset = ProtoSet::default();
        let mut out = UnvalidatedProtoEntry::default();
        let mut i: usize = 0;
        assert(out@ =~= unsupported(set_views(to_map(slots@.take(0))), supported@));
        while i < slots.len()
            invariant
                i <= slots.len(),
                distinct_keys(slots@),
                emptyset@ == Seq::<(Version, Version)>::empty(),
                set_views(to_map(slots@)) == self@,
                out@ == unsupported(set_views(to_map(slots@.take(i as int))), supported@),
                forall|name: Seq<char>| #[trigger]
                    out@.contains_key(name) ==> self@.contains_key(name) && is_difference(
                        out@[name],
                        self@[name],
                        supported_ranges(supported@, name),
                    ),
            decreases slots.len() - i,
        {
            let protocol = &slots[i].0;
            let versions = &slots[i].1;
            let unsupported_versions = match Protocol::from_str(protocol.as_str()) {
                Ok(known) => match supported.get(&known) {
                    Some(supported_versions) => versions.and_not_in(supported_versions),
                    None => versions.and_not_in(&emptyset),
                },
                Err(_) => versions.and_not_in(&emptyset),
            };
            let ghost name = protocol@;
            let ghost before = set_views(to_map(slots@.take(i as int)));
            let ghost after = set_views(to_map(slots@.take(i + 1)));
            proof {
                let head = slots@.take(i as int);
                let seen = slots@.take(i + 1);
                assert(seen.drop_last() == head);
                assert(seen.last() == slots@[i as int]);
                assert(after =~= before.insert(name, versions@));
                assert(unsupported_versions@ == difference(
                    versions@,
                    supported_ranges(supported@, name),
                ));
                lemma_to_map(slots@);
                assert(self@.contains_key(name) && self@[name] == versions@);
                assert(is_difference(
                    unsupported_versions@,
                    self@[name],
                    supported_ranges(supported@, name),
                ));
                assert(distinct_keys(head));
                lemma_to_map(head);
                if before.contains_key(name) {
                    assert(has_key(head, name));
                    let j = choose|j: int| 0 <= j < head.len() && (#[trigger] head[j]).0.id()
                        == name;
                    assert(head[j] == slots@[j]);
                    assert(slots@[j].0.id() != slots@[i as int].0.id());
                }
            }
            if !unsupported_versions.is_empty() {
                out.insert(protocol.clone(), unsupported_versions);
            }
            assert(out@ =~= unsupported(after, supported@));
            i += 1;
        }
        assert(slots@.take(i as int) == slots@);
        out
    }

    /// What this entry claims and this implementation does not support: see
    /// `unsupported_by`, with the entry of `ProtoEntry::supported`.
    pub fn get_unsupported(&self) -> (r: UnvalidatedProtoEntry)
        ensures
            r@ == unsupported(self@, supported_protocols()),
            forall|name: Seq<char>| #[trigger]
                r@.contains_key(name) ==> self@.contains_key(name) && is_difference(
                    r@[name],
                    self@[name],
                    supported_ranges(supported_protocols(), name),
                ),
    {
        match ProtoEntry::supported() {
            Ok(supported) => self.unsupported_by(&supported),
            Err(_) => self.clone(),
        }
    }
}

/// Whether this implementation supports `vers` of `proto`, going by
/// `get_supported_protocols`.
pub fn is_supported_here(proto: &Protocol, vers: Version) -> (r: bool)
    ensures
        r == (supported_protocols().contains_key(*proto) && covers(
            supported_protocols()[*proto],
            vers,
        )),
{
    match ProtoEntry::supported() {
        Ok(currently_supported) => match currently_supported.get(proto) {
            Some(supported_versions) => supported_versions.contains(vers),
            None => false,
        },
        Err(_) => false,
    }
}

// ---------------------------------------------------------------------------
// What the text of the supported protocols says
// ---------------------------------------------------------------------------
/// The protocols that this implementation supports, each with the ranges of
/// its versions: what `get_supported_protocols` says.
pub open spec fn supported_protocols() -> Map<Protocol, Ranges> {
    Map::<Protocol, Ranges>::empty().insert(Protocol::Cons, seq![(1, 2)]).insert(
        Protocol::Desc,
        seq![(1, 2)],
    ).insert(Protocol::DirCache, seq![(1, 2)]).insert(Protocol::HSDir, seq![(1, 2)]).insert(
        Protocol::HSIntro,
        seq![(3, 4)],
    ).insert(Protocol::HSRend, seq![(1, 2)]).insert(Protocol::Link, seq![(1, 5)]).insert(
        Protocol::LinkAuth,
        seq![(1, 1), (3, 3)],
    ).insert(Protocol::Microdesc, seq![(1, 2)]).insert(Protocol::Relay, seq![(1, 2)])
}

/// A clause that is written from a name without `=` and a set reads back as
/// that name and that set.
pub proof fn lemma_parse_clause_text(name: Seq<char>, ranges: Ranges)
    requires
        !name.contains('='),
        canonical(ranges),
    ensures
        parse_clause(clause_text(name, ranges)) == Ok::<_, ProtoverError>((name, ranges)),
{
    let text = clause_text(name, ranges);
    let n = name.len() as int;
    assert(text[n] == '=');
    assert forall|j: int| 0 <= j < n implies text[j] != '=' by {
        assert(text[j] == name[j]);
        if name[j] == '=' {
            assert(name.contains('='));
        }
    }
    lemma_index_of_is(text, '=', n);
    assert(text.take(n) == name);
    assert(text.skip(n + 1) == version_set_text(ranges));
    lemma_text_round_trip(ranges);
}

/// After clauses that parse, one more clause of a known protocol, written
/// from the name of the protocol and a set that is not too large, gives the
/// protocol that set.
pub proof fn lemma_parse_one_more(
    clauses: Seq<Seq<char>>,
    entry: Map<Protocol, Ranges>,
    protocol: Protocol,
    ranges: Ranges,
)
    requires
        parse_clauses(clauses) == Ok::<_, ProtoverError>(entry),
        canonical(ranges),
        span(ranges) <= MAX_PROTOCOLS_TO_EXPAND,
    ensures
        parse_clauses(clauses.push(clause_text(protocol_name(protocol), ranges))) == Ok::<
            _,
            ProtoverError,
        >(entry.insert(protocol, ranges)),
{
    let clause = clause_text(protocol_name(protocol), ranges);
    let all = clauses.push(clause);
    assert(all.drop_last() == clauses);
    assert(all.last() == clause);
    lemma_protocol_names(protocol);
    lemma_parse_clause_text(protocol_name(protocol), ranges);
}

/// The sets of the supported protocols are canonical and small, and this is
/// how they are written.
proof fn lemma_supported_sets()
    ensures
        version_set_text(seq![(1, 2)]) == seq!['1', '-', '2'],
        version_set_text(seq![(3, 4)]) == seq!['3', '-', '4'],
        version_set_text(seq![(1, 5)]) == seq!['1', '-', '5'],
        version_set_text(seq![(1, 1), (3, 3)]) == seq!['1', ',', '3'],
        canonical(seq![(1, 2)]) && span(seq![(1, 2)]) == 2,
        canonical(seq![(3, 4)]) && span(seq![(3, 4)]) == 2,
        canonical(seq![(1, 5)]) && span(seq![(1, 5)]) == 5,
        canonical(seq![(1, 1), (3, 3)]) && span(seq![(1, 1), (3, 3)]) == 2,
{
    reveal_with_fuel(crate::text::join, 3);
    reveal_with_fuel(crate::text::decimal, 2);
    reveal_with_fuel(span, 3);
    let singles: Ranges = seq![(1, 1), (3, 3)];
    assert(crate::protoset::range_texts(singles).drop_first() =~= seq![seq!['3']]);
    assert(version_set_text(seq![(1, 2)]) =~= seq!['1', '-', '2']);
    assert(version_set_text(seq![(3, 4)]) =~= seq!['3', '-', '4']);
    assert(version_set_text(seq![(1, 5)]) =~= seq!['1', '-', '5']);
    assert(version_set_text(singles) =~= seq!['1', ',', '3']);
    assert(singles.drop_last() =~= seq![(1u32, 1u32)]);
    let a: Ranges = seq![(1, 2)];
    let b: Ranges = seq![(3, 4)];
    let c: Ranges = seq![(1, 5)];
    assert(a.drop_last() =~= Seq::<(Version, Version)>::empty());
    assert(b.drop_last() =~= Seq::<(Version, Version)>::empty());
    assert(c.drop_last() =~= Seq::<(Version, Version)>::empty());
}

/// The clauses of the supported protocols, in the order of the text.
spec fn supported_clauses() -> Seq<Seq<char>> {
    seq![
        clause_text(protocol_name(Protocol::Cons), seq![(1, 2)]),
        clause_text(protocol_name(Protocol::Desc), seq![(1, 2)]),
        clause_text(protocol_name(Protocol::DirCache), seq![(1, 2)]),
        clause_text(protocol_name(Protocol::HSDir), seq![(1, 2)]),
        clause_text(protocol_name(Protocol::HSIntro), seq![(3, 4)]),
        clause_text(protocol_name(Protocol::HSRend), seq![(1, 2)]),
        clause_text(protocol_name(Protocol::Link), seq![(1, 5)]),
        clause_text(protocol_name(Protocol::LinkAuth), seq![(1, 1), (3, 3)]),
        clause_text(protocol_name(Protocol::Microdesc), seq![(1, 2)]),
        clause_text(protocol_name(Protocol::Relay), seq![(1, 2)]),
    ]
}

/// The clauses of the supported protocols parse to `supported_protocols`.
proof fn lemma_supported_clauses_parse()
    ensures
        parse_clauses(supported_clauses()) == Ok::<_, ProtoverError>(supported_protocols()),
{
    lemma_supported_sets();
    let r12: Ranges = seq![(1, 2)];
    let r34: Ranges = seq![(3, 4)];
    let r15: Ranges = seq![(1, 5)];
    let r13: Ranges = seq![(1, 1), (3, 3)];
    let parts = supported_clauses();
    let p0 = Seq::<Seq<char>>::empty();
    let m0 = Map::<Protocol, Ranges>::empty();
    lemma_parse_one_more(p0, m0, Protocol::Cons, r12);
    let (p1, m1) = (p0.push(parts[0]), m0.insert(Protocol::Cons, r12));
    lemma_parse_one_more(p1, m1, Protocol::Desc, r12);
    let (p2, m2) = (p1.push(parts[1]), m1.insert(Protocol::Desc, r12));
    lemma_parse_one_more(p2, m2, Protocol::DirCache, r12);
    let (p3, m3) = (p2.push(parts[2]), m2.insert(Protocol::DirCache, r12));
    lemma_parse_one_more(p3, m3, Protocol::HSDir, r12);
    let (p4, m4) = (p3.push(parts[3]), m3.insert(Protocol::HSDir, r12));
    lemma_parse_one_more(p4, m4, Protocol::HSIntro, r34);
    let (p5, m5) = (p4.push(parts[4]), m4.insert(Protocol::HSIntro, r34));
    lemma_parse_one_more(p5, m5, Protocol::HSRend, r12);
    let (p6, m6) = (p5.push(parts[5]), m5.insert(Protocol::HSRend, r12));
    lemma_parse_one_more(p6, m6, Protocol::Link, r15);
    let (p7, m7) = (p6.push(parts[6]), m6.insert(Protocol::Link, r15));
    lemma_parse_one_more(p7, m7, Protocol::LinkAuth, r13);
    let (p8, m8) = (p7.push(parts[7]), m7.insert(Protocol::LinkAuth, r13));
    lemma_parse_one_more(p8, m8, Protocol::Microdesc, r12);
    let (p9, m9) = (p8.push(parts[8]), m8.insert(Protocol::Microdesc, r12));
    lemma_parse_one_more(p9, m9, Protocol::Relay, r12);
    assert(p9.push(parts[9]) =~= parts);
}

/// The letters of the clauses of the supported protocols.
spec fn supported_clause_letters() -> Seq<Seq<char>> {
    seq![
        seq!['C', 'o', 'n', 's', '=', '1', '-', '2'],
        seq!['D', 'e', 's', 'c', '=', '1', '-', '2'],
        seq!['D', 'i', 'r', 'C', 'a', 'c', 'h', 'e', '=', '1', '-', '2'],
        seq!['H', 'S', 'D', 'i', 'r', '=', '1', '-', '2'],
        seq!['H', 'S', 'I', 'n', 't', 'r', 'o', '=', '3', '-', '4'],
        seq!['H', 'S', 'R', 'e', 'n', 'd', '=', '1', '-', '2'],
        seq!['L', 'i', 'n', 'k', '=', '1', '-', '5'],
        seq!['L', 'i', 'n', 'k', 'A', 'u', 't', 'h', '=', '1', ',', '3'],
        seq!['M', 'i', 'c', 'r', 'o', 'd', 'e', 's', 'c', '=', '1', '-', '2'],
        seq!['R', 'e', 'l', 'a', 'y', '=', '1', '-', '2'],
    ]
}

/// The clauses of the supported protocols, letter by letter.
proof fn lemma_supported_clause_letters()
    ensures
        supported_clauses() == supported_clause_letters(),
{
    lemma_supported_sets();
    let (a, b) = (supported_clauses(), supported_clause_letters());
    assert(a[0] =~= b[0]) by {
        reveal_strlit("Cons");
    }
    assert(a[1] =~= b[1]) by {
        reveal_strlit("Desc");
    }
    assert(a[2] =~= b[2]) by {
        reveal_strlit("DirCache");
    }
    assert(a[3] =~= b[3]) by {
        reveal_strlit("HSDir");
    }
    assert(a[4] =~= b[4]) by {
        reveal_strlit("HSIntro");
    }
    assert(a[5] =~= b[5]) by {
        reveal_strlit("HSRend");
    }
    assert(a[6] =~= b[6]) by {
        reveal_strlit("Link");
    }
    assert(a[7] =~= b[7]) by {
        reveal_strlit("LinkAuth");
    }
    assert(a[8] =~= b[8]) by {
        reveal_strlit("Microdesc");
    }
    assert(a[9] =~= b[9]) by {
        reveal_strlit("Relay");
    }
    assert(a =~= b);
}

/// The text of the supported protocols is its ten clauses with single
/// spaces between them.
proof fn lemma_supported_text()
    ensures
        supported_protocols_text() == crate::text::join(supported_clause_letters(), ' '),
{
    reveal_strlit(
        "Cons=1-2 Desc=1-2 DirCache=1-2 HSDir=1-2 HSIntro=3-4 HSRend=1-2 Link=1-5 LinkAuth=1,3 Microdesc=1-2 Relay=1-2",
    );
    let parts = supported_clause_letters();
    let text = supported_protocols_text();
    let t9 = parts[9];
    let t8 = parts[8] + seq![' '] + t9;
    let t7 = parts[7] + seq![' '] + t8;
    let t6 = parts[6] + seq![' '] + t7;
    let t5 = parts[5] + seq![' '] + t6;
    let t4 = parts[4] + seq![' '] + t5;
    let t3 = parts[3] + seq![' '] + t4;
    let t2 = parts[2] + seq![' '] + t3;
    let t1 = parts[1] + seq![' '] + t2;
    let t0 = parts[0] + seq![' '] + t1;
    let s9 = parts.skip(9);
    let s8 = parts.skip(8);
    let s7 = parts.skip(7);
    let s6 = parts.skip(6);
    let s5 = parts.skip(5);
    let s4 = parts.skip(4);
    let s3 = parts.skip(3);
    let s2 = parts.skip(2);
    let s1 = parts.skip(1);
    assert(s9.len() == 1 && s9[0] == parts[9]);
    assert(crate::text::join(s9, ' ') == t9);
    assert(s8.drop_first() == s9 && s8[0] == parts[8]);
    assert(crate::text::join(s8, ' ') == t8);
    assert(s7.drop_first() == s8 && s7[0] == parts[7]);
    assert(crate::text::join(s7, ' ') == t7);
    assert(s6.drop_first() == s7 && s6[0] == parts[6]);
    assert(crate::text::join(s6, ' ') == t6);
    assert(s5.drop_first() == s6 && s5[0] == parts[5]);
    assert(crate::text::join(s5, ' ') == t5);
    assert(s4.drop_first() == s5 && s4[0] == parts[4]);
    assert(crate::text::join(s4, ' ') == t4);
    assert(s3.drop_first() == s4 && s3[0] == parts[3]);
    assert(crate::text::join(s3, ' ') == t3);
    assert(s2.drop_first() == s3 && s2[0] == parts[2]);
    assert(crate::text::join(s2, ' ') == t2);
    assert(s1.drop_first() == s2 && s1[0] == parts[1]);
    assert(crate::text::join(s1, ' ') == t1);
    assert(parts.drop_first() == s1);
    assert(crate::text::join(parts, ' ') == t0);
    assert(text.len() == 109);
    assert(t0.len() == 109);
    assert(text =~= t0);
}

/// No clause of the supported protocols holds a space.
proof fn lemma_supported_clauses_spaces()
    ensures
        forall|i: int|
            0 <= i < supported_clause_letters().len() ==> !(
            #[trigger] supported_clause_letters()[i]).contains(' '),
{
    let parts = supported_clause_letters();
    assert forall|i: int| 0 <= i < parts.len() implies !(#[trigger] parts[i]).contains(' ') by {
        let part = parts[i];
        assert forall|k: int| 0 <= k < part.len() implies part[k] != ' ' by {}
    }
}

/// The text of the supported protocols parses, and says what
/// `supported_protocols` holds.
pub proof fn lemma_supported_protocols()
    ensures
        parse_entry(supported_protocols_text()) == Ok::<_, ProtoverError>(supported_protocols()),
{
    lemma_supported_text();
    lemma_supported_clauses_spaces();
    lemma_split_join(supported_clause_letters(), ' ');
    lemma_supported_clause_letters();
    lemma_supported_clauses_parse();
}

impl core::str::FromStr for ProtoEntry {
    type Err = ProtoverError;

    /// Reads an entry of known protocols; see `ProtoEntry::from_str`.
    fn from_str(protocol_entry: &str) -> (r: Result<ProtoEntry, ProtoverError>)
        ensures
            built_entry(r) == parse_entry(protocol_entry@),
    {
        ProtoEntry::from_str(protocol_entry)
    }
}

impl core::str::FromStr for UnvalidatedProtoEntry {
    type Err = ProtoverError;

    /// Reads an entry of protocols of any name; see
    /// `UnvalidatedProtoEntry::from_str`.
    fn from_str(protocol_entry: &str) -> (r: Result<UnvalidatedProtoEntry, ProtoverError>)
        ensures
            built_unvalidated(r) == parse_unvalidated_entry(protocol_entry@, false),
    {
        UnvalidatedProtoEntry::from_str(protocol_entry)
    }
}

} // verus!
