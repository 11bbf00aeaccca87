//! Type-tagged identifiers and the generic identity-indexed container.
//!
//! An `Id<T>` wraps a 128-bit value and is tagged with the entity type it
//! names, so an identifier for one collection cannot be passed where an
//! identifier for another is expected. The raw value alone, an `UnsafeId`,
//! is the only form an identifier takes when it crosses the trust
//! boundary; `IdMap::validate` is the sole operation that promotes it back
//! to a typed identifier, and does so only while the entity exists.
//!
//! The container keeps its entries in insertion order, which fixes the
//! enumeration order that the catalog's derived views depend on.

use core::marker::PhantomData;
use vstd::prelude::*;

verus! {

/// Raw 128-bit identifier value from outside the trust boundary, not yet
/// proven to resolve.
pub type UnsafeId = u128;

/// Error for a delete of an identifier that no longer names a live entity.
#[derive(Clone, Copy, PartialEq, Eq, Structural, Debug)]
pub struct InvalidId;

/// Opaque identifier into an `IdMap<T>`, tagged with the entity type `T`.
#[derive(Debug, Hash)]
pub struct Id<T> {
    raw: u128,
    phantom: PhantomData<T>,
}

impl<T> Clone for Id<T> {
    fn clone(&self) -> (other: Self)
        ensures
            other == *self,
    {
        Id { raw: self.raw, phantom: PhantomData }
    }
}

impl<T> Copy for Id<T> {}

impl<T> View for Id<T> {
    type V = u128;

    closed spec fn view(&self) -> u128 {
        self.raw
    }
}

impl<T> PartialEq for Id<T> {
    fn eq(&self, other: &Id<T>) -> bool {
        self.raw == other.raw
    }
}

impl<T> Eq for Id<T> {}

impl<T> vstd::std_specs::cmp::PartialEqSpecImpl for Id<T> {
    open spec fn obeys_eq_spec() -> bool {
        true
    }

    open spec fn eq_spec(&self, other: &Id<T>) -> bool {
        self@ == other@
    }
}

impl<T> Id<T> {
    /// The identifier value with the given raw value; the type tag
    /// carries no data, so the raw value determines the identifier.
    pub closed spec fn spec_from(raw: u128) -> Id<T> {
        Id { raw, phantom: PhantomData }
    }

    fn from(raw: u128) -> (id: Id<T>)
        ensures
            id == Id::<T>::spec_from(raw),
    {
        Id { raw, phantom: PhantomData }
    }

    /// The raw value determines the identifier: the view is injective.
    pub proof fn lemma_view_determines(self)
        ensures
            self == Id::<T>::spec_from(self@),
    {
    }

    pub broadcast proof fn lemma_spec_from_view(raw: u128)
        ensures
            (#[trigger] Id::<T>::spec_from(raw))@ == raw,
    {
    }

    /// Strips the type tag, yielding the raw value that may cross the
    /// trust boundary.
    pub fn to_unsafe(&self) -> (raw: UnsafeId)
        ensures
            raw == self@,
    {
        self.raw
    }
}

/// Whether some entry of `s` is keyed by the raw value `raw`.
pub open spec fn has_raw<I>(s: Seq<(Id<I>, I)>, raw: u128) -> bool {
    exists|i: int| 0 <= i < s.len() && s[i].0@ == raw
}

/// The index of the entry keyed by `raw` (meaningful under `unique_ids`).
pub open spec fn raw_index<I>(s: Seq<(Id<I>, I)>, raw: u128) -> int {
    choose|i: int| 0 <= i < s.len() && s[i].0@ == raw
}

/// The value stored under `raw`.
pub open spec fn value_at<I>(s: Seq<(Id<I>, I)>, raw: u128) -> I {
    s[raw_index(s, raw)].1
}

/// No two entries share a raw identifier value.
pub open spec fn unique_ids<I>(s: Seq<(Id<I>, I)>) -> bool {
    forall|i: int, j: int| 0 <= i < j < s.len() ==> s[i].0@ != s[j].0@
}

/// The entry sequence after storing `item` under `id`: replacement in
/// place when the identifier is already present, appending otherwise.
pub open spec fn upsert<I>(s: Seq<(Id<I>, I)>, id: Id<I>, item: I) -> Seq<(Id<I>, I)> {
    if has_raw(s, id@) {
        s.update(raw_index(s, id@), (id, item))
    } else {
        s.push((id, item))
    }
}

/// The entry sequence a store holds after taking in raw keyed pairs in
/// order: a later pair under the same raw value replaces an earlier one.
pub open spec fn from_pairs<I>(pairs: Seq<(u128, I)>) -> Seq<(Id<I>, I)>
    decreases pairs.len(),
{
    if pairs.len() == 0 {
        Seq::empty()
    } else {
        upsert(
            from_pairs(pairs.drop_last()),
            Id::<I>::spec_from(pairs.last().0),
            pairs.last().1,
        )
    }
}

pub proof fn lemma_raw_index<I>(s: Seq<(Id<I>, I)>, raw: u128, j: int)
    requires
        unique_ids(s),
        0 <= j < s.len(),
        s[j].0@ == raw,
    ensures
        has_raw(s, raw),
        raw_index(s, raw) == j,
{
    assert(has_raw(s, raw));
    let k = raw_index(s, raw);
    if k != j {
        assert(s[k].0@ == s[j].0@);
    }
}

/// On pairs whose raw values are already unique, taking them in appends
/// each entry unchanged.
pub proof fn lemma_from_pairs_unique<I>(pairs: Seq<(u128, I)>)
    requires
        forall|i: int, j: int| 0 <= i < j < pairs.len() ==> pairs[i].0 != pairs[j].0,
    ensures
        from_pairs(pairs).len() == pairs.len(),
        forall|i: int|
            0 <= i < pairs.len() ==> from_pairs(pairs)[i] == (
                Id::<I>::spec_from(pairs[i].0),
                pairs[i].1,
            ),
    decreases pairs.len(),
{
    broadcast use Id::lemma_spec_from_view;

    if pairs.len() > 0 {
        let shorter = pairs.drop_last();
        let built = from_pairs(shorter);
        lemma_from_pairs_unique(shorter);
        let last = pairs.last();
        assert(!has_raw(built, last.0)) by {
            if has_raw(built, last.0) {
                let w = raw_index(built, last.0);
                assert(built[w] == (Id::<I>::spec_from(shorter[w].0), shorter[w].1));
                assert(shorter[w].0 == last.0);
                assert(pairs[w].0 == pairs[pairs.len() - 1].0);
            }
        }
        assert(from_pairs(pairs) == built.push((Id::<I>::spec_from(last.0), last.1)));
    }
}

/// What storing under an identifier does to presence and to the stored
/// values: the named identifier now maps to the new item, every other one
/// is untouched.
pub proof fn lemma_upsert<I>(s: Seq<(Id<I>, I)>, id: Id<I>, item: I)
    requires
        unique_ids(s),
    ensures
        ({
            let u = upsert(s, id, item);
            &&& unique_ids(u)
            &&& has_raw(u, id@)
            &&& value_at(u, id@) == item
            &&& u.len() == if has_raw(s, id@) {
                s.len()
            } else {
                s.len() + 1
            }
            &&& forall|k: u128| k != id@ ==> (has_raw(u, k) <==> has_raw(s, k))
            &&& forall|k: u128|
                k != id@ && has_raw(s, k) ==> value_at(u, k) == value_at(s, k)
        }),
{
    let u = upsert(s, id, item);
    if has_raw(s, id@) {
        let j = raw_index(s, id@);
        assert(0 <= j < s.len() && s[j].0@ == id@);
        assert(unique_ids(u));
        lemma_raw_index(u, id@, j);
        assert forall|k: u128| k != id@ && has_raw(s, k) implies has_raw(u, k) && value_at(u, k)
            == value_at(s, k) by {
            let i = raw_index(s, k);
            assert(0 <= i < s.len() && s[i].0@ == k);
            assert(u[i].0@ == k);
            lemma_raw_index(s, k, i);
            lemma_raw_index(u, k, i);
        }
        assert forall|k: u128| k != id@ && has_raw(u, k) implies has_raw(s, k) by {
            let i = raw_index(u, k);
            assert(0 <= i < u.len() && u[i].0@ == k);
            assert(s[i].0@ == k);
        }
    } else {
        assert(forall|i: int| 0 <= i < s.len() ==> s[i].0@ != id@);
        assert(u.len() == s.len() + 1);
        assert(u[s.len() as int].0@ == id@);
        assert(unique_ids(u));
        lemma_raw_index(u, id@, s.len() as int);
        assert forall|k: u128| k != id@ && has_raw(s, k) implies has_raw(u, k) && value_at(u, k)
            == value_at(s, k) by {
            let i = raw_index(s, k);
            assert(0 <= i < s.len() && s[i].0@ == k);
            assert(u[i].0@ == k);
            lemma_raw_index(s, k, i);
            lemma_raw_index(u, k, i);
        }
        assert forall|k: u128| k != id@ && has_raw(u, k) implies has_raw(s, k) by {
            let i = raw_index(u, k);
            assert(0 <= i < u.len() && u[i].0@ == k);
            assert(i < s.len());
            assert(s[i].0@ == k);
        }
    }
}

/// What removing the entry under `raw` does: that identifier stops
/// resolving, every other one keeps its value.
pub proof fn lemma_remove<I>(s: Seq<(Id<I>, I)>, raw: u128)
    requires
        unique_ids(s),
        has_raw(s, raw),
    ensures
        ({
            let r = s.remove(raw_index(s, raw));
            &&& unique_ids(r)
            &&& !has_raw(r, raw)
            &&& r.len() == s.len() - 1
            &&& forall|k: u128| k != raw ==> (has_raw(r, k) <==> has_raw(s, k))
            &&& forall|k: u128|
                k != raw && has_raw(s, k) ==> value_at(r, k) == value_at(s, k)
        }),
{
    let j = raw_index(s, raw);
    assert(0 <= j < s.len() && s[j].0@ == raw);
    let r = s.remove(j);
    assert(forall|i: int| 0 <= i < j ==> r[i] == s[i]);
    assert(forall|i: int| j <= i < r.len() ==> r[i] == s[i + 1]);
    assert(unique_ids(r)) by {
        assert forall|a: int, b: int| 0 <= a < b < r.len() implies r[a].0@ != r[b].0@ by {
            let a0 = if a < j {
                a
            } else {
                a + 1
            };
            let b0 = if b < j {
                b
            } else {
                b + 1
            };
            assert(r[a] == s[a0] && r[b] == s[b0]);
        }
    }
    assert(!has_raw(r, raw)) by {
        if has_raw(r, raw) {
            let i = raw_index(r, raw);
            let i0 = if i < j {
                i
            } else {
                i + 1
            };
            assert(s[i0].0@ == raw && s[j].0@ == raw && i0 != j);
        }
    }
    assert forall|k: u128| k != raw && has_raw(s, k) implies has_raw(r, k) && value_at(r, k)
        == value_at(s, k) by {
        let i = raw_index(s, k);
        assert(0 <= i < s.len() && s[i].0@ == k);
        lemma_raw_index(s, k, i);
        assert(i != j);
        let i1 = if i < j {
            i
        } else {
            i - 1
        };
        assert(r[i1] == s[i]);
        lemma_raw_index(r, k, i1);
    }
    assert forall|k: u128| k != raw && has_raw(r, k) implies has_raw(s, k) by {
        let i = raw_index(r, k);
        assert(0 <= i < r.len() && r[i].0@ == k);
        let i0 = if i < j {
            i
        } else {
            i + 1
        };
        assert(s[i0].0@ == k);
    }
}

/// Generic identity-indexed container: a mapping from typed identifiers to
/// items, keys unique, entries enumerated in insertion order.
pub struct IdMap<I> {
    entries: Vec<(Id<I>, I)>,
}

impl<I> View for IdMap<I> {
    type V = Seq<(Id<I>, I)>;

    closed spec fn view(&self) -> Seq<(Id<I>, I)> {
        self.entries@
    }
}

impl<I> IdMap<I> {
    /// Key uniqueness: established by every constructor, preserved by
    /// every operation.
    pub open spec fn wf(&self) -> bool {
        unique_ids(self@)
    }

    /// Whether an entity currently exists under the raw value `raw`.
    pub open spec fn contains(&self, raw: u128) -> bool {
        has_raw(self@, raw)
    }

    /// The item stored under `raw`.
    pub open spec fn spec_get(&self, raw: u128) -> I {
        value_at(self@, raw)
    }

    pub fn new() -> (store: IdMap<I>)
        ensures
            store@ == Seq::<(Id<I>, I)>::empty(),
            store.wf(),
    {
        IdMap { entries: Vec::new() }
    }

    /// Read-only access to the entries, in insertion order.
    pub fn iter(&self) -> (entries: &Vec<(Id<I>, I)>)
        ensures
            entries@ == self@,
    {
        &self.entries
    }

    /// The index of the entry keyed by `id`, if any.
    fn find(&self, raw: u128) -> (position: Option<usize>)
        ensures
            match position {
                Some(j) => j < self@.len() && self@[j as int].0@ == raw && (self.wf()
                    ==> has_raw(self@, raw) && raw_index(self@, raw) == j),
                None => !has_raw(self@, raw),
            },
    {
        let n = self.entries.len();
        let mut j: usize = 0;
        while j < n
            invariant
                0 <= j <= n,
                n == self@.len(),
                forall|k: int| 0 <= k < j ==> self@[k].0@ != raw,
            decreases n - j,
        {
            if self.entries[j].0.raw == raw {
                proof {
                    if self.wf() {
                        lemma_raw_index(self@, raw, j as int);
                    }
                }
                return Some(j);
            }
            j = j + 1;
        }
        None
    }

    /// Produces a store from raw keyed pairs, as they arrive from a
    /// persisted snapshot; a later pair under the same raw value replaces
    /// an earlier one.
    pub fn from(raw: Vec<(UnsafeId, I)>) -> (store: IdMap<I>)
        ensures
            store.wf(),
            store@ == from_pairs(raw@),
    {
        let ghost all = raw@;
        let mut raw = raw;
        let mut store = IdMap::<I>::new();
        let ghost mut done: int = 0;
        while raw.len() > 0
            invariant
                0 <= done <= all.len(),
                raw@ == all.skip(done),
                store.wf(),
                store@ == from_pairs(all.take(done)),
            decreases raw@.len(),
        {
            let (key, item) = raw.remove(0);
            let id = Id::<I>::from(key);
            store.update(id, item);
            proof {
                assert((key, item) == all[done]);
                assert(all.take(done + 1).drop_last() =~= all.take(done));
                assert(all.take(done + 1).last() == all[done]);
                assert(raw@ =~= all.skip(done + 1));
                done = done + 1;
            }
        }
        proof {
            assert(all.take(done) =~= all);
        }
        store
    }

    /// The items alone, in insertion order.
    pub fn values(&self) -> (items: Vec<&I>)
        ensures
            items@.len() == self@.len(),
            forall|i: int| 0 <= i < self@.len() ==> items@[i] == self@[i].1,
    {
        let n = self.entries.len();
        let mut items: Vec<&I> = Vec::new();
        let mut j: usize = 0;
        while j < n
            invariant
                0 <= j <= n,
                n == self@.len(),
                items@.len() == j,
                forall|i: int| 0 <= i < j ==> items@[i] == self@[i].1,
            decreases n - j,
        {
            items.push(&self.entries[j].1);
            j = j + 1;
        }
        items
    }

    /// Inserts the item under a freshly drawn random identifier and
    /// returns that identifier. The draw is random, so the store promises
    /// only what holds whichever value came back: the returned identifier
    /// maps to the item, and no other identifier's value changed.
    pub fn create(&mut self, item: I) -> (id: Id<I>)
        requires
            old(self).wf(),
        ensures
            final(self).wf(),
            final(self)@ == upsert(old(self)@, id, item),
    {
        let id = Id::<I>::from(fresh_raw());
        self.update(id, item);
        id
    }

    /// The stored item. Only callable with an identifier produced by
    /// `create` or `validate` on this store and not deleted since; that is
    /// what `contains` records.
    pub fn read(&self, id: &Id<I>) -> (item: &I)
        requires
            self.wf(),
            self.contains(id@),
        ensures
            *item == self.spec_get(id@),
    {
        match self.find(id.raw) {
            Some(j) => &self.entries[j].1,
            None => unreached(),
        }
    }

    /// Full replacement of the value under `id`; inserts when `id` is
    /// absent (upsert).
    pub fn update(&mut self, id: Id<I>, item: I)
        requires
            old(self).wf(),
        ensures
            final(self).wf(),
            final(self)@ == upsert(old(self)@, id, item),
    {
        proof {
            lemma_upsert(old(self)@, id, item);
        }
        match self.find(id.raw) {
            Some(j) => {
                self.entries[j] = (id, item);
            },
            None => {
                self.entries.push((id, item));
            },
        }
    }

    /// Removes and returns the value under `id`; an identifier that no
    /// longer resolves is reported as `InvalidId` and changes nothing.
    pub fn delete(&mut self, id: Id<I>) -> (deleted: Result<I, InvalidId>)
        requires
            old(self).wf(),
        ensures
            final(self).wf(),
            match deleted {
                Ok(item) => {
                    &&& has_raw(old(self)@, id@)
                    &&& item == value_at(old(self)@, id@)
                    &&& final(self)@ == old(self)@.remove(raw_index(old(self)@, id@))
                },
                Err(_) => {
                    &&& !has_raw(old(self)@, id@)
                    &&& final(self)@ == old(self)@
                },
            },
    {
        proof {
            if has_raw(self@, id@) {
                lemma_remove(self@, id@);
            }
        }
        match self.find(id.raw) {
            Some(j) => {
                let (_, item) = self.entries.remove(j);
                Ok(item)
            },
            None => Err(InvalidId),
        }
    }

    /// Law: immediately after `create` or `update` stored `item` under
    /// `id`, the raw value of `id` validates, and the validated
    /// identifier reads back to that very item.
    pub proof fn lemma_stored_reads_back(&self, previous: Seq<(Id<I>, I)>, id: Id<I>, item: I)
        requires
            unique_ids(previous),
            self@ == upsert(previous, id, item),
        ensures
            self.wf(),
            self.contains(id@),
            self.spec_get(id@) == item,
            forall|k: u128| k != id@ ==> (self.contains(k) <==> has_raw(previous, k)),
            forall|k: u128|
                k != id@ && has_raw(previous, k) ==> self.spec_get(k) == value_at(previous, k),
    {
        lemma_upsert(previous, id, item);
    }

    /// Law: after a successful `delete` of `id`, the raw value of `id`
    /// no longer validates; every other identifier keeps its value.
    pub proof fn lemma_deleted_stops_validating(&self, previous: Seq<(Id<I>, I)>, id: Id<I>)
        requires
            unique_ids(previous),
            has_raw(previous, id@),
            self@ == previous.remove(raw_index(previous, id@)),
        ensures
            self.wf(),
            !self.contains(id@),
            forall|k: u128| k != id@ ==> (self.contains(k) <==> has_raw(previous, k)),
            forall|k: u128|
                k != id@ && has_raw(previous, k) ==> self.spec_get(k) == value_at(previous, k),
    {
        lemma_remove(previous, id@);
    }

    /// Promotes a raw value to a typed identifier, exactly when an entity
    /// with that value currently exists in this store.
    pub fn validate(&self, unsafe_id: UnsafeId) -> (checked: Option<Id<I>>)
        ensures
            match checked {
                Some(id) => id@ == unsafe_id && has_raw(self@, unsafe_id),
                None => !has_raw(self@, unsafe_id),
            },
    {
        match self.find(unsafe_id) {
            Some(_) => Some(Id::from(unsafe_id)),
            None => None,
        }
    }
}

/// Relies on `uuid::Uuid::new_v4` (via `as_u128`) to draw a random 128-bit
/// identifier. The value is random, so nothing is promised of it; every
/// caller states what holds of any outcome.
#[verifier::external_body]
fn fresh_raw() -> u128 {
    uuid::Uuid::new_v4().as_u128()
}

} // verus!
