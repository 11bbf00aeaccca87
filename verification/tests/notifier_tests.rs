use std::cell::Cell;

use event_catalog::crud::{Crud, CrudNotifier};
use event_catalog::id_map::IdMap;

#[test]
fn callback_runs_once_after_each_successful_mutation() {
    let ran = Cell::new(0usize);
    let seen_len = Cell::new(usize::MAX);
    let callback = |state: &IdMap<u64>| {
        ran.set(ran.get() + 1);
        seen_len.set(state.iter().len());
    };
    let mut notifier = CrudNotifier::from(IdMap::new(), callback);

    let id = notifier.create(7);
    // Called exactly once, with the state after the insertion.
    assert_eq!(ran.get(), 1);
    assert_eq!(seen_len.get(), 1);

    notifier.update(id, 8);
    assert_eq!(ran.get(), 2);
    assert_eq!(seen_len.get(), 1);

    assert_eq!(*notifier.read(&id), 8);
    // A read mutates nothing and notifies nothing.
    assert_eq!(ran.get(), 2);

    assert_eq!(notifier.delete(id), Ok(8));
    // Called with the state after the removal.
    assert_eq!(ran.get(), 3);
    assert_eq!(seen_len.get(), 0);
}

#[test]
fn callback_never_runs_for_a_failed_delete() {
    let ran = Cell::new(0usize);
    let callback = |_state: &IdMap<u64>| {
        ran.set(ran.get() + 1);
    };
    let mut notifier = CrudNotifier::from(IdMap::new(), callback);
    let id = notifier.create(1);
    assert!(notifier.delete(id).is_ok());
    assert_eq!(ran.get(), 2);

    // The second delete of the same identifier is refused and aborted:
    // the callback must not run.
    assert!(notifier.delete(id).is_err());
    assert_eq!(ran.get(), 2);
}
