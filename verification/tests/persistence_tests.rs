use event_catalog::events::{Event, IdMapCru, Location, Occurrence, Snapshot, Store};
use event_catalog::id_map::IdMap;

fn location(name: &str) -> Location {
    Location { name: name.to_string(), address: "Aachen".to_string() }
}

fn event_with(name: &str, occurrences: Vec<Occurrence>) -> Event {
    Event {
        name: name.to_string(),
        teaser: "Hereinschnuppern.".to_string(),
        description: "Eine Einfuehrung fuer alle.".to_string(),
        occurrences,
    }
}

#[test]
fn snapshot_reload_restores_entities_under_same_ids() {
    let mut store = Store::from(IdMapCru::new(), IdMap::new());
    let chico = store.locations.insert(location("Chico"));
    let sencillito = store.locations.insert(location("Sencillito"));
    let social = store.events.create(event_with(
        "Social Dance",
        vec![
            Occurrence { start: 18000 * 86400 + 73800, duration: 90, location_id: chico.to_unsafe() },
            Occurrence { start: 18007 * 86400 + 73800, duration: 90, location_id: sencillito.to_unsafe() },
        ],
    ));

    let reloaded = Store::load(store.snapshot()).expect("every reference resolves");

    // The previously valid identifiers still resolve, to the same values.
    let c = reloaded.locations.validate(chico.to_unsafe()).expect("location kept");
    assert_eq!(reloaded.locations.get(&c).name, "Chico");
    let s = reloaded.locations.validate(sencillito.to_unsafe()).expect("location kept");
    assert_eq!(reloaded.locations.get(&s).address, "Aachen");
    let e = reloaded.events.validate(social.to_unsafe()).expect("event kept");
    let back = reloaded.events.read(&e);
    assert_eq!(back.name, "Social Dance");
    assert_eq!(back.occurrences.len(), 2);
    assert_eq!(back.occurrences[0].location_id, chico.to_unsafe());

    // Nothing extra appeared.
    assert_eq!(reloaded.locations.values().len(), 2);
    assert_eq!(reloaded.events.iter().len(), 1);
}

#[test]
fn snapshot_with_dangling_reference_fails_to_load_whole() {
    let locations = vec![(1u128, location("Chico"))];
    let events = vec![(
        7u128,
        event_with(
            "Social Dance",
            vec![
                Occurrence { start: 100, duration: 30, location_id: 1 },
                Occurrence { start: 200, duration: 30, location_id: 99 },
            ],
        ),
    )];
    let rejected = Store::load(Snapshot { locations, events });
    assert!(rejected.is_err());
}

#[test]
fn empty_snapshot_loads_to_empty_store() {
    let loaded = Store::load(Snapshot { locations: vec![], events: vec![] }).unwrap();
    assert_eq!(loaded.locations.values().len(), 0);
    assert_eq!(loaded.events.iter().len(), 0);
    assert!(loaded.occurrences().is_empty());
}

#[test]
fn init_builds_plain_container_from_raw_pairs() {
    let raw = vec![(5u128, location("Chico")), (6u128, location("Sencillito"))];
    let built: IdMap<Location> = IdMapCru::init(raw);
    let id = built.validate(6).expect("raw key must resolve");
    assert_eq!(built.read(&id).name, "Sencillito");
    assert!(built.validate(7).is_none());
}
