use event_catalog::events::{Event, IdMapCru, Location, Occurrence, Store};
use event_catalog::id_map::IdMap;

fn empty_store() -> Store {
    Store::from(IdMapCru::new(), IdMap::new())
}

fn location(name: &str) -> Location {
    Location { name: name.to_string(), address: "Aachen".to_string() }
}

fn event_with(name: &str, occurrences: Vec<Occurrence>) -> Event {
    Event {
        name: name.to_string(),
        teaser: "Einfach tanzen.".to_string(),
        description: "Lindy Hop tanzen in einer Bar.".to_string(),
        occurrences,
    }
}

const DAY: u64 = 86400;

fn at(day: u64, hour: u64, minute: u64) -> u64 {
    day * DAY + hour * 3600 + minute * 60
}

#[test]
fn delete_location_blocked_by_referring_event() {
    let mut store = empty_store();
    let a = store.locations.insert(location("Chico"));
    let e = store.events.create(event_with(
        "Social Dance",
        vec![Occurrence { start: at(18000, 20, 30), duration: 90, location_id: a.to_unsafe() }],
    ));

    let blocked = store.delete_location(a);
    assert_eq!(blocked.as_ref().err().map(|d| d.len()), Some(1));
    assert_eq!(blocked.unwrap_err()[0], e);

    // The location stays retrievable and unchanged after the refusal.
    let still = store.locations.validate(a.to_unsafe()).expect("location must survive");
    assert_eq!(store.locations.get(&still).name, "Chico");

    // After removing the referring occurrence the delete goes through.
    store.events.update(e, event_with("Social Dance", vec![]));
    let freed = store.delete_location(a).expect("no reference is left");
    assert_eq!(freed.name, "Chico");
    assert!(store.locations.validate(a.to_unsafe()).is_none());
}

#[test]
fn delete_location_reports_every_referring_event_once() {
    let mut store = empty_store();
    let a = store.locations.insert(location("Chico"));
    let b = store.locations.insert(location("Sencillito"));
    let refers = |loc: u128| Occurrence { start: at(18000, 19, 45), duration: 45, location_id: loc };
    let e1 = store.events.create(event_with("Kurs", vec![refers(a.to_unsafe()), refers(a.to_unsafe())]));
    let _e2 = store.events.create(event_with("Pause", vec![refers(b.to_unsafe())]));
    let e3 = store.events.create(event_with("Social", vec![refers(b.to_unsafe()), refers(a.to_unsafe())]));

    let blocked = store.delete_location(a).unwrap_err();
    // Exactly the referring events, in store order, each once.
    assert_eq!(blocked, vec![e1, e3]);
}

#[test]
fn occurrences_sorted_by_start() {
    let mut store = empty_store();
    let loc = store.locations.insert(location("Chico"));
    let raw = loc.to_unsafe();
    let mk = |h: u64| Occurrence { start: at(18000, h, 0), duration: 60, location_id: raw };
    store.events.create(event_with("A", vec![mk(10)]));
    store.events.create(event_with("B", vec![mk(9), mk(11)]));

    let entries = store.occurrences();
    let hours: Vec<u64> = entries.iter().map(|e| (e.0.start / 3600) % 24).collect();
    assert_eq!(hours, vec![9, 10, 11]);
    let owners: Vec<&str> = entries.iter().map(|e| e.1.name.as_str()).collect();
    assert_eq!(owners, vec!["B", "A", "B"]);
}

#[test]
fn occurrences_stable_for_equal_starts() {
    let mut store = empty_store();
    let loc = store.locations.insert(location("Chico"));
    let raw = loc.to_unsafe();
    let same = Occurrence { start: at(18000, 20, 0), duration: 60, location_id: raw };
    store.events.create(event_with("First", vec![same]));
    store.events.create(event_with("Second", vec![same]));

    let entries = store.occurrences();
    let owners: Vec<&str> = entries.iter().map(|e| e.1.name.as_str()).collect();
    // Ties keep the order in which the events store enumerates.
    assert_eq!(owners, vec!["First", "Second"]);
}

#[test]
fn occurrences_of_empty_store() {
    let store = empty_store();
    assert!(store.occurrences().is_empty());
    assert!(store.occurrences_by_date().is_empty());
}

#[test]
fn same_date_occurrences_form_one_ordered_group() {
    let mut store = empty_store();
    let loc = store.locations.insert(location("Chico"));
    let raw = loc.to_unsafe();
    let day = 18000;
    let mk = |h: u64| Occurrence { start: at(day, h, 0), duration: 60, location_id: raw };
    store.events.create(event_with("E", vec![mk(10), mk(9), mk(11)]));

    let entries = store.occurrences();
    let hours: Vec<u64> = entries.iter().map(|e| (e.0.start / 3600) % 24).collect();
    assert_eq!(hours, vec![9, 10, 11]);

    let groups = store.occurrences_by_date();
    assert_eq!(groups.len(), 1);
    assert_eq!(groups[0].0, day);
    let grouped_hours: Vec<u64> = groups[0].1.iter().map(|e| (e.0.start / 3600) % 24).collect();
    assert_eq!(grouped_hours, vec![9, 10, 11]);
}

#[test]
fn groups_ordered_by_date_and_union_is_everything() {
    let mut store = empty_store();
    let loc = store.locations.insert(location("Chico"));
    let raw = loc.to_unsafe();
    let mk = |d: u64, h: u64| Occurrence { start: at(d, h, 0), duration: 30, location_id: raw };
    store.events.create(event_with("Late", vec![mk(18002, 20), mk(18000, 21)]));
    store.events.create(event_with("Early", vec![mk(18000, 19)]));

    let groups = store.occurrences_by_date();
    let days: Vec<u64> = groups.iter().map(|g| g.0).collect();
    assert_eq!(days, vec![18000, 18002]);
    assert_eq!(groups[0].1.len(), 2);
    assert_eq!(groups[1].1.len(), 1);
    let flattened: Vec<u64> = groups
        .iter()
        .flat_map(|g| g.1.iter().map(|e| e.0.start))
        .collect();
    let listed: Vec<u64> = store.occurrences().iter().map(|e| e.0.start).collect();
    assert_eq!(flattened, listed);
    for g in &groups {
        for e in &g.1 {
            assert_eq!(e.0.start / DAY, g.0);
        }
    }
}

#[test]
fn occurrence_date_is_day_number() {
    let o = Occurrence { start: 3 * DAY + 5, duration: 1, location_id: 0 };
    assert_eq!(o.date(), 3);
    let midnight = Occurrence { start: 4 * DAY, duration: 1, location_id: 0 };
    assert_eq!(midnight.date(), 4);
    let last_second = Occurrence { start: 5 * DAY - 1, duration: 1, location_id: 0 };
    assert_eq!(last_second.date(), 4);
}

#[test]
fn dangling_reference_does_not_block_other_locations() {
    let mut store = empty_store();
    let a = store.locations.insert(location("Chico"));
    // An event may reference a location that never existed; only the
    // referenced location is protected.
    store.events.create(event_with(
        "Ghost",
        vec![Occurrence { start: at(18000, 20, 0), duration: 60, location_id: 424242 }],
    ));
    let freed = store.delete_location(a).expect("nothing refers to it");
    assert_eq!(freed.name, "Chico");
}

#[test]
fn set_replaces_a_location_in_place() {
    let mut store = empty_store();
    let a = store.locations.insert(location("Chico"));
    store.locations.set(a, Location { name: "Chico Mendès".to_string(), address: "Aachen".to_string() });
    assert_eq!(store.locations.get(&a).name, "Chico Mendès");
    // The identifier itself is unaffected by the replacement.
    assert!(store.locations.validate(a.to_unsafe()).is_some());
    assert_eq!(store.locations.values().len(), 1);
}
