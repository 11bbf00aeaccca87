//! The minimal polymorphic contract for keyed stores, and a decorator
//! that reports every successful mutation.

use crate::id_map::{has_raw, raw_index, upsert, value_at, Id, IdMap, InvalidId, unique_ids};
use vstd::prelude::*;

verus! {

/// Create/read/update/delete against a store of typed-identifier-keyed
/// items. Every implementation maintains its validity `inv` and exposes
/// its entries as a sequence with unique identifiers.
pub trait Crud: Sized {
    type Item;

    /// Validity the store maintains across operations.
    spec fn inv(&self) -> bool;

    /// The entries, typed identifiers paired with items, in enumeration
    /// order.
    spec fn entries(&self) -> Seq<(Id<Self::Item>, Self::Item)>;

    proof fn entries_unique(&self)
        requires
            self.inv(),
        ensures
            unique_ids(self.entries()),
    ;

    /// Inserts the item under a fresh identifier and returns it.
    fn create(&mut self, item: Self::Item) -> (id: Id<Self::Item>)
        requires
            old(self).inv(),
        ensures
            final(self).inv(),
            final(self).entries() == upsert(old(self).entries(), id, item),
    ;

    /// The stored item; only callable with an identifier that currently
    /// resolves in this store.
    fn read(&self, id: &Id<Self::Item>) -> (item: &Self::Item)
        requires
            self.inv(),
            has_raw(self.entries(), id@),
        ensures
            *item == value_at(self.entries(), id@),
    ;

    /// Full replacement of the value under `id`; inserts when absent.
    fn update(&mut self, id: Id<Self::Item>, item: Self::Item)
        requires
            old(self).inv(),
        ensures
            final(self).inv(),
            final(self).entries() == upsert(old(self).entries(), id, item),
    ;

    /// Removes and returns the value under `id`, or reports `InvalidId`
    /// and changes nothing.
    fn delete(&mut self, id: Id<Self::Item>) -> (deleted: Result<Self::Item, InvalidId>)
        requires
            old(self).inv(),
        ensures
            final(self).inv(),
            match deleted {
                Ok(item) => {
                    &&& has_raw(old(self).entries(), id@)
                    &&& item == value_at(old(self).entries(), id@)
                    &&& final(self).entries() == old(self).entries().remove(
                        raw_index(old(self).entries(), id@),
                    )
                },
                Err(_) => {
                    &&& !has_raw(old(self).entries(), id@)
                    &&& final(self).entries() == old(self).entries()
                },
            },
    ;
}

impl<I> Crud for IdMap<I> {
    type Item = I;

    open spec fn inv(&self) -> bool {
        self.wf()
    }

    open spec fn entries(&self) -> Seq<(Id<I>, I)> {
        self@
    }

    proof fn entries_unique(&self) {
    }

    fn create(&mut self, item: I) -> (id: Id<I>) {
        IdMap::create(self, item)
    }

    fn read(&self, id: &Id<I>) -> (item: &I) {
        IdMap::read(self, id)
    }

    fn update(&mut self, id: Id<I>, item: I) {
        IdMap::update(self, id, item)
    }

    fn delete(&mut self, id: Id<I>) -> (deleted: Result<I, InvalidId>) {
        IdMap::delete(self, id)
    }
}

/// Wraps a store and invokes a caller-supplied callback after each
/// successful mutation, exactly once, synchronously, with the wrapped
/// store's state after the mutation; a failed mutation invokes nothing.
/// The ghost `notified` count records how often the callback ran.
pub struct CrudNotifier<S, C> where S: Crud, C: Fn(&S) {
    store: S,
    callback: C,
    notified: Ghost<nat>,
}

impl<S, C> CrudNotifier<S, C> where S: Crud, C: Fn(&S) {
    /// The wrapped store.
    pub closed spec fn inner(&self) -> S {
        self.store
    }

    /// The callback invoked after successful mutations.
    pub closed spec fn hook(&self) -> C {
        self.callback
    }

    /// How often the callback has run.
    pub closed spec fn times_notified(&self) -> nat {
        self.notified@
    }

    /// The callback must accept every state of the wrapped store, since
    /// it runs after arbitrary mutations.
    pub open spec fn hook_callable(&self) -> bool {
        forall|s: &S| #[trigger] call_requires(self.hook(), (s,))
    }

    pub fn from(store: S, callback: C) -> (notifier: CrudNotifier<S, C>)
        requires
            forall|s: &S| #[trigger] call_requires(callback, (s,)),
        ensures
            notifier.inner() == store,
            notifier.hook() == callback,
            notifier.hook_callable(),
            notifier.times_notified() == 0,
    {
        CrudNotifier { store, callback, notified: Ghost(0) }
    }
}

impl<S, C> Crud for CrudNotifier<S, C> where S: Crud, C: Fn(&S) {
    type Item = S::Item;

    open spec fn inv(&self) -> bool {
        self.inner().inv() && self.hook_callable()
    }

    open spec fn entries(&self) -> Seq<(Id<S::Item>, S::Item)> {
        self.inner().entries()
    }

    proof fn entries_unique(&self) {
        self.inner().entries_unique();
    }

    /// Creates in the wrapped store, then notifies once with the state
    /// after the insertion.
    fn create(&mut self, item: S::Item) -> (id: Id<S::Item>)
        ensures
            final(self).hook() == old(self).hook(),
            final(self).times_notified() == old(self).times_notified() + 1,
            call_ensures(old(self).hook(), (&final(self).inner(),), ()),
    {
        let id = self.store.create(item);
        proof {
            assert(self.hook() == old(self).hook());
            assert(call_requires(self.hook(), (&self.store,)));
        }
        (self.callback)(&self.store);
        self.notified = Ghost(self.notified@ + 1);
        proof {
            assert(self.hook() == old(self).hook());
            assert forall|s: &S| #[trigger] call_requires(self.hook(), (s,)) by {
                assert(call_requires(old(self).hook(), (s,)));
            }
        }
        id
    }

    /// Reads delegate; nothing is mutated and nothing is notified.
    fn read(&self, id: &Id<S::Item>) -> (item: &S::Item) {
        self.store.read(id)
    }

    /// Updates in the wrapped store, then notifies once with the state
    /// after the replacement.
    fn update(&mut self, id: Id<S::Item>, item: S::Item)
        ensures
            final(self).hook() == old(self).hook(),
            final(self).times_notified() == old(self).times_notified() + 1,
            call_ensures(old(self).hook(), (&final(self).inner(),), ()),
    {
        self.store.update(id, item);
        proof {
            assert(self.hook() == old(self).hook());
            assert(call_requires(self.hook(), (&self.store,)));
        }
        (self.callback)(&self.store);
        self.notified = Ghost(self.notified@ + 1);
        proof {
            assert(self.hook() == old(self).hook());
            assert forall|s: &S| #[trigger] call_requires(self.hook(), (s,)) by {
                assert(call_requires(old(self).hook(), (s,)));
            }
        }
    }

    /// Deletes in the wrapped store; notifies once with the state after
    /// the removal exactly when the delete succeeded, and never for a
    /// failed delete.
    fn delete(&mut self, id: Id<S::Item>) -> (deleted: Result<S::Item, InvalidId>)
        ensures
            final(self).hook() == old(self).hook(),
            final(self).times_notified() == old(self).times_notified() + (
            if deleted is Ok {
                1int
            } else {
                0int
            }),
            deleted is Ok ==> call_ensures(old(self).hook(), (&final(self).inner(),), ()),
    {
        let deleted = self.store.delete(id);
        match &deleted {
            Ok(_) => {
                proof {
                    assert(self.hook() == old(self).hook());
                    assert(call_requires(self.hook(), (&self.store,)));
                }
                (self.callback)(&self.store);
                self.notified = Ghost(self.notified@ + 1);
            },
            Err(_) => {},
        }
        proof {
            assert(self.hook() == old(self).hook());
            assert forall|s: &S| #[trigger] call_requires(self.hook(), (s,)) by {
                assert(call_requires(old(self).hook(), (s,)));
            }
        }
        deleted
    }
}

} // verus!
