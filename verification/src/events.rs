//! Entities of the catalog and the catalog itself: locations, events with
//! their nested occurrences, referential-integrity-checked deletion, the
//! derived occurrence views, and whole-store snapshots.
//!
//! Time policy: an occurrence's `start` is a timestamp in seconds since
//! the epoch, read as UTC; its calendar date is the day number
//! `start / SECONDS_PER_DAY`. Both the chronological ordering and the
//! date grouping are fixed by this one policy.

use crate::id_map::{
    from_pairs, has_raw, lemma_from_pairs_unique, raw_index, unique_ids, upsert, value_at, Id,
    IdMap, UnsafeId,
};
use vstd::prelude::*;

verus! {

/// Length of an occurrence, in minutes.
pub type Duration = u64;

pub const SECONDS_PER_DAY: u64 = 86400;

/// The calendar date (as a day number) on which a timestamp falls.
pub open spec fn date_of(start: u64) -> u64 {
    start / SECONDS_PER_DAY
}

/// A place where events happen.
#[derive(Debug)]
pub struct Location {
    pub name: String,
    pub address: String,
}

impl Clone for Location {
    fn clone(&self) -> (other: Self)
        ensures
            other == *self,
    {
        Location { name: self.name.clone(), address: self.address.clone() }
    }
}

/// One concrete time at which an event takes place, at a location that is
/// referenced by raw value only: occurrences may be created, transported
/// or persisted before their location exists or after it was deleted, so
/// the reference is checked lazily, never at event creation.
#[derive(Clone, Copy, PartialEq, Eq, Structural, Debug)]
pub struct Occurrence {
    pub start: u64,
    pub duration: Duration,
    pub location_id: UnsafeId,
}

impl Occurrence {
    /// The calendar date this occurrence falls on.
    pub fn date(&self) -> (day: u64)
        ensures
            day == date_of(self.start),
    {
        self.start / SECONDS_PER_DAY
    }
}

/// An event with its owned, ordered occurrences.
#[derive(Debug)]
pub struct Event {
    pub name: String,
    pub teaser: String,
    pub description: String,
    pub occurrences: Vec<Occurrence>,
}

/// The value of an `Event`, independent of how its strings and vectors
/// are allocated.
pub ghost struct EventView {
    pub name: Seq<char>,
    pub teaser: Seq<char>,
    pub description: Seq<char>,
    pub occurrences: Seq<Occurrence>,
}

impl View for Event {
    type V = EventView;

    open spec fn view(&self) -> EventView {
        EventView {
            name: self.name@,
            teaser: self.teaser@,
            description: self.description@,
            occurrences: self.occurrences@,
        }
    }
}

impl Clone for Event {
    fn clone(&self) -> (other: Self)
        ensures
            other@ == self@,
    {
        let occurrences = self.occurrences.clone();
        proof {
            assert(occurrences@ =~= self.occurrences@);
        }
        Event {
            name: self.name.clone(),
            teaser: self.teaser.clone(),
            description: self.description.clone(),
            occurrences,
        }
    }
}

/// Error for a persisted snapshot holding an occurrence whose location
/// reference does not resolve; the whole load is rejected.
#[derive(Clone, Copy, PartialEq, Eq, Structural, Debug)]
pub struct LoadFailure;

/// The locations store: the identity-indexed container under a thin
/// facade whose method names match how the catalog speaks of places.
pub struct IdMapCru<I>(IdMap<I>);

pub type Locations = IdMapCru<Location>;

pub type Events = IdMap<Event>;

/// A produced entry list: occurrences paired with their owning events.
pub type Occurrences = Vec<(Occurrence, Event)>;

impl<I> View for IdMapCru<I> {
    type V = Seq<(Id<I>, I)>;

    closed spec fn view(&self) -> Seq<(Id<I>, I)> {
        self.0@
    }
}

impl<I> IdMapCru<I> {
    pub open spec fn wf(&self) -> bool {
        unique_ids(self@)
    }

    pub open spec fn contains(&self, raw: u128) -> bool {
        has_raw(self@, raw)
    }

    pub open spec fn spec_get(&self, raw: u128) -> I {
        value_at(self@, raw)
    }

    pub fn new() -> (store: IdMapCru<I>)
        ensures
            store@ == Seq::<(Id<I>, I)>::empty(),
            store.wf(),
    {
        IdMapCru(IdMap::new())
    }

    /// A plain container from raw keyed pairs, as read back from a
    /// persisted snapshot.
    pub fn init(raw: Vec<(UnsafeId, I)>) -> (store: IdMap<I>)
        ensures
            store.wf(),
            store@ == from_pairs(raw@),
    {
        IdMap::from(raw)
    }

    /// Inserts under a fresh identifier and returns it.
    pub fn insert(&mut self, item: I) -> (id: Id<I>)
        requires
            old(self).wf(),
        ensures
            final(self).wf(),
            final(self)@ == upsert(old(self)@, id, item),
    {
        self.0.create(item)
    }

    /// The items alone, in insertion order.
    pub fn values(&self) -> (items: Vec<&I>)
        ensures
            items@.len() == self@.len(),
            forall|i: int| 0 <= i < self@.len() ==> items@[i] == self@[i].1,
    {
        self.0.values()
    }

    /// The stored item; only callable with an identifier that currently
    /// resolves in this store.
    pub fn get(&self, id: &Id<I>) -> (item: &I)
        requires
            self.wf(),
            self.contains(id@),
        ensures
            *item == self.spec_get(id@),
    {
        self.0.read(id)
    }

    /// Full replacement of the value under `id`; inserts when absent.
    pub fn set(&mut self, id: Id<I>, item: I)
        requires
            old(self).wf(),
        ensures
            final(self).wf(),
            final(self)@ == upsert(old(self)@, id, item),
    {
        self.0.update(id, item)
    }

    /// Promotes a raw value to a typed identifier, exactly when an entity
    /// with that value currently exists in this store.
    pub fn validate(&self, unsafe_id: UnsafeId) -> (checked: Option<Id<I>>)
        ensures
            match checked {
                Some(id) => id@ == unsafe_id && has_raw(self@, unsafe_id),
                None => !has_raw(self@, unsafe_id),
            },
    {
        self.0.validate(unsafe_id)
    }
}

/// A flattened entry: one occurrence paired with the value of its owning
/// event.
pub type OccurrenceEntry = (Occurrence, EventView);

/// The entries contributed by one event: each of its occurrences, in
/// order, paired with the event.
pub open spec fn entries_of(ev: EventView) -> Seq<OccurrenceEntry> {
    ev.occurrences.map_values(|o: Occurrence| (o, ev))
}

/// Every event's occurrences, flattened in enumeration order.
pub open spec fn occurrence_entries(events: Seq<(Id<Event>, Event)>) -> Seq<OccurrenceEntry>
    decreases events.len(),
{
    if events.len() == 0 {
        Seq::empty()
    } else {
        occurrence_entries(events.drop_last()) + entries_of(events.last().1@)
    }
}

/// The values of a produced entry list.
pub open spec fn entry_views(entries: Seq<(Occurrence, Event)>) -> Seq<OccurrenceEntry> {
    entries.map_values(|p: (Occurrence, Event)| (p.0, p.1@))
}

/// Ascending start order.
pub open spec fn chronological(entries: Seq<OccurrenceEntry>) -> bool {
    forall|i: int, j: int|
        0 <= i < j < entries.len() ==> entries[i].0.start <= entries[j].0.start
}

/// Insertion behind every entry that starts no later: the stable
/// position, keeping ties in production order.
pub open spec fn insert_chron(entries: Seq<OccurrenceEntry>, entry: OccurrenceEntry) -> Seq<
    OccurrenceEntry,
>
    decreases entries.len(),
{
    if entries.len() == 0 {
        seq![entry]
    } else if entries.last().0.start <= entry.0.start {
        entries.push(entry)
    } else {
        insert_chron(entries.drop_last(), entry).push(entries.last())
    }
}

/// The stable chronological sort: entries in ascending start order,
/// entries with equal starts keeping the order in which they were
/// produced.
pub open spec fn sort_chron(entries: Seq<OccurrenceEntry>) -> Seq<OccurrenceEntry>
    decreases entries.len(),
{
    if entries.len() == 0 {
        Seq::empty()
    } else {
        insert_chron(sort_chron(entries.drop_last()), entries.last())
    }
}

/// The stable insertion point is an ordinary sequence insertion.
proof fn lemma_insert_chron_at(entries: Seq<OccurrenceEntry>, entry: OccurrenceEntry, p: int)
    requires
        0 <= p <= entries.len(),
        forall|k: int| p <= k < entries.len() ==> entries[k].0.start > entry.0.start,
        p > 0 ==> entries[p - 1].0.start <= entry.0.start,
    ensures
        insert_chron(entries, entry) == entries.insert(p, entry),
    decreases entries.len(),
{
    if p == entries.len() {
        if entries.len() == 0 {
            assert(insert_chron(entries, entry) =~= entries.insert(p, entry));
        } else {
            assert(entries.last().0.start <= entry.0.start);
            assert(entries.push(entry) =~= entries.insert(p, entry));
        }
    } else {
        assert(entries[entries.len() - 1].0.start > entry.0.start);
        lemma_insert_chron_at(entries.drop_last(), entry, p);
        assert(insert_chron(entries.drop_last(), entry).push(entries.last()) =~= entries.insert(
            p,
            entry,
        ));
    }
}

/// Inserting into a chronological sequence keeps it chronological and
/// adds exactly the new entry.
proof fn lemma_insert_chron_props(entries: Seq<OccurrenceEntry>, entry: OccurrenceEntry)
    requires
        chronological(entries),
    ensures
        chronological(insert_chron(entries, entry)),
        insert_chron(entries, entry).to_multiset() == entries.to_multiset().insert(entry),
        insert_chron(entries, entry).len() == entries.len() + 1,
    decreases entries.len(),
{
    broadcast use vstd::multiset::group_multiset_axioms;

    entries.to_multiset_ensures();
    let result = insert_chron(entries, entry);
    if entries.len() == 0 {
        assert(result =~= Seq::empty().push(entry));
        Seq::<OccurrenceEntry>::empty().to_multiset_ensures();
        assert(result.to_multiset() =~= entries.to_multiset().insert(entry));
    } else if entries.last().0.start <= entry.0.start {
        assert(chronological(result));
        assert(result.to_multiset() =~= entries.to_multiset().insert(entry));
    } else {
        let shorter = entries.drop_last();
        assert(chronological(shorter));
        lemma_insert_chron_props(shorter, entry);
        let inner = insert_chron(shorter, entry);
        shorter.to_multiset_ensures();
        inner.to_multiset_ensures();
        assert(entries =~= shorter.push(entries.last()));
        assert(chronological(result)) by {
            assert(forall|k: int|
                0 <= k < inner.len() ==> inner.to_multiset().count(#[trigger] inner[k]) > 0);
            assert(forall|k: int|
                0 <= k < inner.len() ==> inner[k].0.start <= entries.last().0.start) by {
                assert forall|k: int| 0 <= k < inner.len() implies inner[k].0.start
                    <= entries.last().0.start by {
                    assert(inner.to_multiset().count(inner[k]) > 0);
                    if inner[k] == entry {
                        assert(entry.0.start <= entries.last().0.start);
                    } else {
                        assert(shorter.to_multiset().count(inner[k]) > 0);
                        let m = choose|m: int|
                            0 <= m < shorter.len() && shorter[m] == inner[k];
                        assert(shorter[m].0.start <= entries.last().0.start);
                    }
                }
            }
        }
        assert(result.to_multiset() =~= entries.to_multiset().insert(entry));
    }
}

/// The sort is a chronological permutation of what was produced.
pub proof fn lemma_sort_chron_props(entries: Seq<OccurrenceEntry>)
    ensures
        chronological(sort_chron(entries)),
        sort_chron(entries).to_multiset() == entries.to_multiset(),
        sort_chron(entries).len() == entries.len(),
    decreases entries.len(),
{
    entries.to_multiset_ensures();
    if entries.len() == 0 {
        assert(entries =~= sort_chron(entries));
    } else {
        let shorter = entries.drop_last();
        lemma_sort_chron_props(shorter);
        lemma_insert_chron_props(sort_chron(shorter), entries.last());
        shorter.to_multiset_ensures();
        assert(entries =~= shorter.push(entries.last()));
        assert(sort_chron(entries).to_multiset() =~= entries.to_multiset());
    }
}

/// The values of a date-grouped entry list.
pub open spec fn group_views(groups: Seq<(u64, Vec<(Occurrence, Event)>)>) -> Seq<
    (u64, Seq<OccurrenceEntry>),
> {
    groups.map_values(|g: (u64, Vec<(Occurrence, Event)>)| (g.0, entry_views(g.1@)))
}

/// All groups' entries, in group order.
pub open spec fn concat_groups(groups: Seq<(u64, Seq<OccurrenceEntry>)>) -> Seq<OccurrenceEntry>
    decreases groups.len(),
{
    if groups.len() == 0 {
        Seq::empty()
    } else {
        concat_groups(groups.drop_last()) + groups.last().1
    }
}

/// A later start never falls on an earlier date.
pub proof fn lemma_date_monotone(a: u64, b: u64)
    requires
        a <= b,
    ensures
        date_of(a) <= date_of(b),
{
    vstd::arithmetic::div_mod::lemma_div_is_ordered(a as int, b as int, SECONDS_PER_DAY as int);
}

/// Whether some occurrence of the event references the location with raw
/// value `raw`.
pub open spec fn event_refers(ev: EventView, raw: u128) -> bool {
    exists|j: int| 0 <= j < ev.occurrences.len() && ev.occurrences[j].location_id == raw
}

/// The identifiers of exactly those events holding at least one
/// occurrence that references `raw`, in enumeration order.
pub open spec fn dependent_events(events: Seq<(Id<Event>, Event)>, raw: u128) -> Seq<Id<Event>>
    decreases events.len(),
{
    if events.len() == 0 {
        Seq::empty()
    } else {
        let prefix = dependent_events(events.drop_last(), raw);
        if event_refers(events.last().1@, raw) {
            prefix.push(events.last().0)
        } else {
            prefix
        }
    }
}

/// The dependent list names an event's identifier exactly when one of
/// that event's occurrences references the location: no more, no fewer.
/// With unique event identifiers the dependent list names each event at
/// most once.
pub proof fn lemma_dependent_events_unique(events: Seq<(Id<Event>, Event)>, raw: u128)
    requires
        unique_ids(events),
    ensures
        dependent_events(events, raw).no_duplicates(),
    decreases events.len(),
{
    if events.len() > 0 {
        let shorter = events.drop_last();
        let last = events.last();
        lemma_dependent_events_unique(shorter, raw);
        lemma_dependent_events_exact(shorter, raw);
        let deps = dependent_events(events, raw);
        let prefix = dependent_events(shorter, raw);
        if event_refers(last.1@, raw) {
            assert(deps == prefix.push(last.0));
            assert forall|d: int| 0 <= d < prefix.len() implies prefix[d] != last.0 by {
                let i = choose|i: int|
                    0 <= i < shorter.len() && (#[trigger] shorter[i]).0 == prefix[d]
                        && event_refers(shorter[i].1@, raw);
                assert(events[i].0@ != events[events.len() - 1].0@);
            }
            assert(deps.no_duplicates());
        }
    }
}

pub proof fn lemma_dependent_events_exact(events: Seq<(Id<Event>, Event)>, raw: u128)
    ensures
        (dependent_events(events, raw).len() == 0) <==> (forall|i: int|
            0 <= i < events.len() ==> !event_refers((#[trigger] events[i]).1@, raw)),
        forall|i: int|
            0 <= i < events.len() && event_refers((#[trigger] events[i]).1@, raw)
                ==> dependent_events(events, raw).contains(events[i].0),
        forall|d: int| #![trigger dependent_events(events, raw)[d]]
            0 <= d < dependent_events(events, raw).len() ==> exists|i: int|
                0 <= i < events.len() && (#[trigger] events[i]).0 == dependent_events(
                    events,
                    raw,
                )[d] && event_refers(events[i].1@, raw),
    decreases events.len(),
{
    if events.len() > 0 {
        let shorter = events.drop_last();
        let last = events.last();
        lemma_dependent_events_exact(shorter, raw);
        let deps = dependent_events(events, raw);
        let prefix = dependent_events(shorter, raw);
        assert(forall|i: int| 0 <= i < shorter.len() ==> events[i] == shorter[i]);
        if event_refers(last.1@, raw) {
            assert(deps == prefix.push(last.0));
            assert(deps[deps.len() - 1] == last.0);
            assert(deps.len() > 0);
            assert(events[events.len() - 1] == last);
            assert forall|i: int|
                0 <= i < events.len() && event_refers((#[trigger] events[i]).1@, raw)
                implies deps.contains(events[i].0) by {
                if i < events.len() - 1 {
                    assert(prefix.contains(shorter[i].0));
                    let w = choose|w: int| 0 <= w < prefix.len() && prefix[w] == shorter[i].0;
                    assert(deps[w] == shorter[i].0);
                } else {
                    assert(deps[deps.len() - 1] == events[i].0);
                }
            }
            assert forall|d: int| #![trigger deps[d]] 0 <= d < deps.len() implies exists|i: int|
                0 <= i < events.len() && (#[trigger] events[i]).0 == deps[d] && event_refers(
                    events[i].1@,
                    raw,
                ) by {
                if d < deps.len() - 1 {
                    assert(deps[d] == prefix[d]);
                    let i = choose|i: int|
                        0 <= i < shorter.len() && (#[trigger] shorter[i]).0 == prefix[d]
                            && event_refers(shorter[i].1@, raw);
                    assert(events[i].0 == deps[d] && event_refers(events[i].1@, raw));
                } else {
                    let i = events.len() - 1;
                    assert(events[i].0 == deps[d] && event_refers(events[i].1@, raw));
                }
            }
        } else {
            assert(deps == prefix);
            assert forall|d: int| #![trigger deps[d]] 0 <= d < deps.len() implies exists|i: int|
                0 <= i < events.len() && (#[trigger] events[i]).0 == deps[d] && event_refers(
                    events[i].1@,
                    raw,
                ) by {
                let i = choose|i: int|
                    0 <= i < shorter.len() && (#[trigger] shorter[i]).0 == prefix[d]
                        && event_refers(shorter[i].1@, raw);
                assert(events[i].0 == deps[d] && event_refers(events[i].1@, raw));
            }
        }
    }
}

/// A whole-store snapshot for persistence: every entity under the raw
/// value of its identifier, in enumeration order, with occurrence
/// references left unvalidated.
pub struct Snapshot {
    pub locations: Vec<(UnsafeId, Location)>,
    pub events: Vec<(UnsafeId, Event)>,
}

/// Whether every occurrence of the event references a location that
/// exists.
pub open spec fn event_resolves(ev: EventView, locations: Seq<(Id<Location>, Location)>) -> bool {
    forall|j: int|
        0 <= j < ev.occurrences.len() ==> has_raw(locations, ev.occurrences[j].location_id)
}

/// Whether every occurrence of every event references a location that
/// exists.
pub open spec fn resolves(
    events: Seq<(Id<Event>, Event)>,
    locations: Seq<(Id<Location>, Location)>,
) -> bool {
    forall|i: int| 0 <= i < events.len() ==> event_resolves(events[i].1@, locations)
}

/// What a snapshot of a store holds: the same entities under the raw
/// values of their identifiers, in enumeration order.
pub open spec fn is_snapshot_of(snap: Snapshot, store: Store) -> bool {
    &&& snap.locations@.len() == store.locations@.len()
    &&& forall|i: int|
        0 <= i < store.locations@.len() ==> (#[trigger] snap.locations@[i]).0
            == store.locations@[i].0@ && snap.locations@[i].1 == store.locations@[i].1
    &&& snap.events@.len() == store.events@.len()
    &&& forall|i: int|
        0 <= i < store.events@.len() ==> (#[trigger] snap.events@[i]).0 == store.events@[i].0@
            && snap.events@[i].1@ == store.events@[i].1@
}

/// Law: a snapshot of a well-formed store in which every occurrence
/// reference resolves loads back in full: `load` accepts it, the loaded
/// locations are the very same entries, and the loaded events carry the
/// same identifiers and the same values. (For a store holding a dangling
/// reference — which `create` and `update` permit — `load` rejects the
/// snapshot as a whole, so such stores are left out here.)
pub proof fn lemma_snapshot_round_trip(store: Store, snap: Snapshot)
    requires
        store.wf(),
        resolves(store.events@, store.locations@),
        is_snapshot_of(snap, store),
    ensures
        from_pairs(snap.locations@) == store.locations@,
        from_pairs::<Event>(snap.events@).len() == store.events@.len(),
        forall|i: int|
            0 <= i < store.events@.len() ==> (#[trigger] from_pairs::<Event>(snap.events@)[i]).0
                == store.events@[i].0 && from_pairs::<Event>(snap.events@)[i].1@
                == store.events@[i].1@,
        resolves(from_pairs(snap.events@), from_pairs(snap.locations@)),
{
    assert(forall|i: int, j: int|
        0 <= i < j < snap.locations@.len() ==> (#[trigger] snap.locations@[i]).0 != (
        #[trigger] snap.locations@[j]).0);
    assert(forall|i: int, j: int|
        0 <= i < j < snap.events@.len() ==> (#[trigger] snap.events@[i]).0 != (
        #[trigger] snap.events@[j]).0);
    lemma_from_pairs_unique::<Location>(snap.locations@);
    lemma_from_pairs_unique::<Event>(snap.events@);
    assert forall|i: int| 0 <= i < store.locations@.len() implies from_pairs::<Location>(
        snap.locations@,
    )[i] == store.locations@[i] by {
        store.locations@[i].0.lemma_view_determines();
    }
    assert(from_pairs(snap.locations@) =~= store.locations@);
    assert forall|i: int| 0 <= i < store.events@.len() implies (#[trigger] from_pairs::<Event>(
        snap.events@,
    )[i]).0 == store.events@[i].0 && from_pairs::<Event>(snap.events@)[i].1@
        == store.events@[i].1@ by {
        store.events@[i].0.lemma_view_determines();
    }
    assert forall|i: int| 0 <= i < from_pairs::<Event>(snap.events@).len() implies event_resolves(
        (#[trigger] from_pairs::<Event>(snap.events@)[i]).1@,
        from_pairs(snap.locations@),
    ) by {
        assert(from_pairs::<Event>(snap.events@)[i].1@ == store.events@[i].1@);
        assert(event_resolves(store.events@[i].1@, store.locations@));
    }
}

/// The catalog: one locations store, one events store, and every
/// cross-collection invariant enforced here.
pub struct Store {
    pub locations: Locations,
    pub events: Events,
}

impl Store {
    pub open spec fn wf(&self) -> bool {
        self.locations.wf() && self.events.wf()
    }

    pub fn from(locations: Locations, events: Events) -> (store: Store)
        ensures
            store.locations == locations,
            store.events == events,
    {
        Store { locations, events }
    }

    /// Every event's occurrences, each paired with its owning event,
    /// flattened in the events store's enumeration order and sorted
    /// ascending by start with a stable sort: entries with equal starts
    /// keep the order in which they were produced.
    pub fn occurrences(&self) -> (entries: Occurrences)
        ensures
            entry_views(entries@) == sort_chron(occurrence_entries(self.events@)),
            chronological(entry_views(entries@)),
            entry_views(entries@).to_multiset() == occurrence_entries(self.events@).to_multiset(),
    {
        let all = self.events.iter();
        let n = all.len();
        let mut produced: Vec<(Occurrence, Event)> = Vec::new();
        let mut i: usize = 0;
        while i < n
            invariant
                0 <= i <= n,
                n == self.events@.len(),
                all@ == self.events@,
                entry_views(produced@) == occurrence_entries(self.events@.take(i as int)),
            decreases n - i,
        {
            push_event_entries(&mut produced, &all[i].1);
            proof {
                let next = self.events@.take(i as int + 1);
                assert(next.drop_last() =~= self.events@.take(i as int));
                assert(next.last() == self.events@[i as int]);
            }
            i = i + 1;
        }
        proof {
            assert(self.events@.take(n as int) =~= self.events@);
            lemma_sort_chron_props(occurrence_entries(self.events@));
        }
        sort_entries(produced)
    }

    /// The chronological entry list of `occurrences`, grouped by the
    /// calendar date of each entry's start: groups ordered by date
    /// ascending, every entry in the group of its own date, each group
    /// chronological, and the groups together holding exactly the
    /// chronological entry list.
    pub fn occurrences_by_date(&self) -> (groups: Vec<(u64, Occurrences)>)
        ensures
            concat_groups(group_views(groups@)) == sort_chron(occurrence_entries(self.events@)),
            forall|g: int| 0 <= g < groups@.len() ==> groups@[g].1@.len() > 0,
            forall|g: int, e: int|
                0 <= g < groups@.len() && 0 <= e < groups@[g].1@.len() ==> date_of(
                    groups@[g].1@[e].0.start,
                ) == groups@[g].0,
            forall|g: int, h: int| 0 <= g < h < groups@.len() ==> groups@[g].0 < groups@[h].0,
            forall|g: int, d: int, e: int|
                0 <= g < groups@.len() && 0 <= d < e < groups@[g].1@.len()
                    ==> groups@[g].1@[d].0.start <= groups@[g].1@[e].0.start,
    {
        let mut entries = self.occurrences();
        let ghost all = entry_views(entries@);
        let mut groups: Vec<(u64, Occurrences)> = Vec::new();
        let ghost mut k: int = 0;
        while entries.len() > 0
            invariant
                0 <= k <= all.len(),
                chronological(all),
                entry_views(entries@) == all.skip(k),
                concat_groups(group_views(groups@)) == all.take(k),
                (groups@.len() == 0) <==> (k == 0),
                forall|g: int| 0 <= g < groups@.len() ==> groups@[g].1@.len() > 0,
                forall|g: int, e: int|
                    0 <= g < groups@.len() && 0 <= e < groups@[g].1@.len() ==> date_of(
                        groups@[g].1@[e].0.start,
                    ) == groups@[g].0,
                forall|g: int, h: int| 0 <= g < h < groups@.len() ==> groups@[g].0 < groups@[h].0,
                forall|g: int, d: int, e: int|
                    0 <= g < groups@.len() && 0 <= d < e < groups@[g].1@.len()
                        ==> groups@[g].1@[d].0.start <= groups@[g].1@[e].0.start,
                k > 0 ==> ({
                    let gl = groups@.len() - 1;
                    let last_entry = groups@[gl].1@.len() - 1;
                    &&& groups@[gl].0 == date_of(all[k - 1].0.start)
                    &&& groups@[gl].1@[last_entry].0.start == all[k - 1].0.start
                }),
            decreases entries@.len(),
        {
            let ghost pre = entries@;
            let entry = entries.remove(0);
            let day = entry.0.date();
            let ghost entry_view = (entry.0, entry.1@);
            proof {
                assert(entry_views(pre).len() == pre.len());
                assert(all.skip(k).len() == all.len() - k);
                assert(k < all.len());
                assert(entries@ =~= pre.skip(1));
                assert(entry == pre[0]);
                assert(entry_view == entry_views(pre)[0]);
                assert(all.skip(k)[0] == all[0 + k]);
                assert(entry_view == all[k]);
                assert forall|q: int| 0 <= q < entries@.len() implies entry_views(entries@)[q]
                    == all.skip(k + 1)[q] by {
                    assert(entries@[q] == pre[q + 1]);
                    assert(entry_views(entries@)[q] == entry_views(pre)[q + 1]);
                    assert(entry_views(pre)[q + 1] == all.skip(k)[q + 1]);
                    assert(all.skip(k)[q + 1] == all[q + 1 + k]);
                    assert(all.skip(k + 1)[q] == all[q + (k + 1)]);
                }
                assert(entry_views(entries@) =~= all.skip(k + 1));
                assert(all.take(k + 1) =~= all.take(k).push(all[k]));
            }
            let ghost before = groups@;
            let push_new = if groups.len() == 0 {
                true
            } else {
                let gl = groups.len() - 1;
                groups[gl].0 != day
            };
            if push_new {
                proof {
                    if k > 0 {
                        lemma_date_monotone(all[k - 1].0.start, all[k].0.start);
                    }
                }
                let mut group: Occurrences = Vec::new();
                group.push(entry);
                groups.push((day, group));
                proof {
                    let widened = group_views(groups@);
                    let narrow = group_views(before);
                    assert(widened =~~= narrow.push((day, seq![entry_view])));
                    assert(widened.drop_last() =~~= narrow);
                    assert(widened.last() == (day, seq![entry_view]));
                    assert(concat_groups(widened) == concat_groups(narrow) + seq![entry_view]);
                    assert(concat_groups(narrow) + seq![entry_view] =~= all.take(k).push(
                        all[k],
                    ));
                }
            } else {
                let gl = groups.len() - 1;
                groups[gl].1.push(entry);
                proof {
                    let glv = gl as int;
                    let widened = group_views(groups@);
                    let narrow = group_views(before);
                    assert(groups@[glv].1@ =~= before[glv].1@.push(entry));
                    assert(widened =~~= narrow.update(
                        glv,
                        (before[glv].0, entry_views(before[glv].1@).push(entry_view)),
                    ));
                    assert(widened.drop_last() =~~= narrow.drop_last());
                    assert(widened.last().1 == entry_views(before[glv].1@).push(entry_view));
                    assert(narrow.last().1 == entry_views(before[glv].1@));
                    assert(concat_groups(widened) == concat_groups(widened.drop_last())
                        + widened.last().1);
                    assert(concat_groups(narrow) == concat_groups(narrow.drop_last())
                        + narrow.last().1);
                    assert(concat_groups(widened) =~= concat_groups(narrow).push(entry_view));
                    assert(concat_groups(narrow).push(entry_view) == all.take(k).push(all[k]));
                }
            }
            proof {
                k = k + 1;
            }
        }
        proof {
            assert(all.take(k) =~= all);
            lemma_sort_chron_props(occurrence_entries(self.events@));
        }
        groups
    }

    /// Deletes a location unless any event still references it: the
    /// identifiers of all referring events are returned as the error and
    /// nothing changes; otherwise the location is removed and returned.
    /// Only callable with a location identifier that currently resolves.
    pub fn delete_location(&mut self, id: Id<Location>) -> (result: Result<
        Location,
        Vec<Id<Event>>,
    >)
        requires
            old(self).wf(),
            old(self).locations.contains(id@),
        ensures
            final(self).wf(),
            final(self).events@ == old(self).events@,
            match result {
                Err(dependents) => {
                    &&& dependents@ == dependent_events(old(self).events@, id@)
                    &&& dependents@.len() > 0
                    &&& final(self).locations@ == old(self).locations@
                },
                Ok(location) => {
                    &&& dependent_events(old(self).events@, id@).len() == 0
                    &&& location == value_at(old(self).locations@, id@)
                    &&& final(self).locations@ == old(self).locations@.remove(
                        raw_index(old(self).locations@, id@),
                    )
                },
            },
    {
        let raw = id.to_unsafe();
        let entries = self.events.iter();
        let n = entries.len();
        let mut dependents: Vec<Id<Event>> = Vec::new();
        let mut i: usize = 0;
        while i < n
            invariant
                0 <= i <= n,
                n == self.events@.len(),
                entries@ == self.events@,
                raw == id@,
                dependents@ == dependent_events(self.events@.take(i as int), raw),
            decreases n - i,
        {
            let event = &entries[i].1;
            if event_references(event, raw) {
                dependents.push(entries[i].0);
            }
            proof {
                let prefix = self.events@.take(i as int);
                let next = self.events@.take(i + 1);
                assert(next.drop_last() =~= prefix);
                assert(next.last() == self.events@[i as int]);
                assert(dependents@ == dependent_events(next, raw));
            }
            i = i + 1;
        }
        proof {
            assert(self.events@.take(n as int) =~= self.events@);
        }
        if dependents.len() > 0 {
            Err(dependents)
        } else {
            match self.locations.0.delete(id) {
                Ok(location) => Ok(location),
                Err(_) => unreached(),
            }
        }
    }
}

impl Store {
    /// The whole store as plain raw-keyed pairs, ready to persist.
    pub fn snapshot(&self) -> (snap: Snapshot)
        ensures
            is_snapshot_of(snap, *self),
    {
        let location_entries = self.locations.0.iter();
        let n = location_entries.len();
        let mut locations: Vec<(UnsafeId, Location)> = Vec::new();
        let mut i: usize = 0;
        while i < n
            invariant
                0 <= i <= n,
                n == self.locations@.len(),
                location_entries@ == self.locations@,
                locations@.len() == i,
                forall|p: int|
                    0 <= p < i ==> (#[trigger] locations@[p]).0 == self.locations@[p].0@
                        && locations@[p].1 == self.locations@[p].1,
            decreases n - i,
        {
            locations.push((location_entries[i].0.to_unsafe(), location_entries[i].1.clone()));
            i = i + 1;
        }
        let event_entries = self.events.iter();
        let m = event_entries.len();
        let mut events: Vec<(UnsafeId, Event)> = Vec::new();
        let mut j: usize = 0;
        while j < m
            invariant
                0 <= j <= m,
                m == self.events@.len(),
                event_entries@ == self.events@,
                events@.len() == j,
                forall|p: int|
                    0 <= p < j ==> (#[trigger] events@[p]).0 == self.events@[p].0@
                        && events@[p].1@ == self.events@[p].1@,
            decreases m - j,
        {
            events.push((event_entries[j].0.to_unsafe(), event_entries[j].1.clone()));
            j = j + 1;
        }
        Snapshot { locations, events }
    }

    /// Rebuilds a store from a snapshot. Every occurrence's location
    /// reference is re-validated against the loaded locations before the
    /// events are admitted as trusted data; a single dangling reference
    /// rejects the whole load, and no partial store is produced.
    pub fn load(snap: Snapshot) -> (result: Result<Store, LoadFailure>)
        ensures
            match result {
                Ok(store) => {
                    &&& store.wf()
                    &&& store.locations@ == from_pairs(snap.locations@)
                    &&& store.events@ == from_pairs(snap.events@)
                    &&& resolves(from_pairs(snap.events@), from_pairs(snap.locations@))
                },
                Err(_) => !resolves(from_pairs(snap.events@), from_pairs(snap.locations@)),
            },
    {
        let locations = IdMapCru(IdMap::from(snap.locations));
        let events = IdMap::from(snap.events);
        if check_all_resolve(&events, &locations) {
            Ok(Store { locations, events })
        } else {
            Err(LoadFailure)
        }
    }
}

/// Whether every occurrence of every event references a location that
/// exists in the given store.
fn check_all_resolve(events: &Events, locations: &Locations) -> (ok: bool)
    ensures
        ok == resolves(events@, locations@),
{
    let entries = events.iter();
    let n = entries.len();
    let mut i: usize = 0;
    while i < n
        invariant
            0 <= i <= n,
            n == events@.len(),
            entries@ == events@,
            forall|p: int| 0 <= p < i ==> event_resolves(events@[p].1@, locations@),
        decreases n - i,
    {
        if !check_event_resolves(&entries[i].1, locations) {
            proof {
                assert(!event_resolves(events@[i as int].1@, locations@));
            }
            return false;
        }
        i = i + 1;
    }
    true
}

/// Whether every occurrence of the event references a location that
/// exists in the given store.
fn check_event_resolves(event: &Event, locations: &Locations) -> (ok: bool)
    ensures
        ok == event_resolves(event@, locations@),
{
    let m = event.occurrences.len();
    let mut j: usize = 0;
    while j < m
        invariant
            0 <= j <= m,
            m == event.occurrences@.len(),
            forall|k: int| 0 <= k < j ==> has_raw(locations@, event.occurrences@[k].location_id),
        decreases m - j,
    {
        if locations.validate(event.occurrences[j].location_id).is_none() {
            proof {
                assert(!has_raw(locations@, event@.occurrences[j as int].location_id));
            }
            return false;
        }
        j = j + 1;
    }
    true
}

/// Appends each occurrence of the event, paired with the event, to the
/// produced entry list.
fn push_event_entries(produced: &mut Vec<(Occurrence, Event)>, event: &Event)
    ensures
        entry_views(final(produced)@) == entry_views(old(produced)@) + entries_of(event@),
{
    let m = event.occurrences.len();
    let mut j: usize = 0;
    while j < m
        invariant
            0 <= j <= m,
            m == event.occurrences@.len(),
            entry_views(produced@) == entry_views(old(produced)@) + entries_of(event@).take(
                j as int,
            ),
        decreases m - j,
    {
        let ghost before = produced@;
        produced.push((event.occurrences[j], event.clone()));
        proof {
            assert(entry_views(produced@) =~= entry_views(before).push(
                (event.occurrences@[j as int], event@),
            ));
            assert(entries_of(event@).take(j as int + 1) =~= entries_of(event@).take(
                j as int,
            ).push((event.occurrences@[j as int], event@)));
            assert(entry_views(produced@) =~= entry_views(old(produced)@) + entries_of(
                event@,
            ).take(j as int + 1));
        }
        j = j + 1;
    }
    proof {
        assert(entries_of(event@).take(m as int) =~= entries_of(event@));
    }
}

/// Sorts produced entries ascending by start with a stable binary
/// insertion: each entry goes behind every already placed entry that
/// starts no later.
fn sort_entries(produced: Vec<(Occurrence, Event)>) -> (sorted: Vec<(Occurrence, Event)>)
    ensures
        entry_views(sorted@) == sort_chron(entry_views(produced@)),
{
    let ghost orig = produced@;
    let ghost target = entry_views(orig);
    let mut rest = produced;
    let mut sorted: Vec<(Occurrence, Event)> = Vec::new();
    let ghost mut k: int = 0;
    while rest.len() > 0
        invariant
            0 <= k <= target.len(),
            target == entry_views(orig),
            target.len() == orig.len(),
            rest@ == orig.skip(k),
            entry_views(sorted@) == sort_chron(target.take(k)),
        decreases rest@.len(),
    {
        let entry = rest.remove(0);
        let ghost entry_view = (entry.0, entry.1@);
        proof {
            assert(orig.skip(k)[0] == orig[k]);
            assert(entry_view == target[k]);
            assert(orig.skip(k).remove(0) =~= orig.skip(k + 1));
        }
        let mut p: usize = sorted.len();
        while p > 0 && sorted[p - 1].0.start > entry.0.start
            invariant
                0 <= p <= sorted@.len(),
                forall|q: int| p <= q < sorted@.len() ==> sorted@[q].0.start > entry.0.start,
            decreases p,
        {
            p = p - 1;
        }
        let ghost placed = sorted@;
        sorted.insert(p, entry);
        proof {
            let placed_views = entry_views(placed);
            assert(forall|q: int|
                0 <= q < placed.len() ==> placed_views[q].0.start == placed[q].0.start);
            lemma_insert_chron_at(placed_views, entry_view, p as int);
            assert(entry_views(sorted@) =~= placed_views.insert(p as int, entry_view));
            assert(target.take(k + 1).drop_last() =~= target.take(k));
            assert(target.take(k + 1).last() == target[k]);
            assert(entry_views(sorted@) == sort_chron(target.take(k + 1)));
            k = k + 1;
        }
    }
    proof {
        assert(target.take(k) =~= target);
    }
    sorted
}

/// Whether any occurrence of the event references the location with raw
/// value `raw`.
fn event_references(event: &Event, raw: UnsafeId) -> (referenced: bool)
    ensures
        referenced == event_refers(event@, raw),
{
    let m = event.occurrences.len();
    let mut j: usize = 0;
    while j < m
        invariant
            0 <= j <= m,
            m == event.occurrences@.len(),
            forall|k: int| 0 <= k < j ==> event.occurrences@[k].location_id != raw,
        decreases m - j,
    {
        if event.occurrences[j].location_id == raw {
            proof {
                assert(event@.occurrences[j as int].location_id == raw);
            }
            return true;
        }
        j = j + 1;
    }
    false
}

} // verus!
