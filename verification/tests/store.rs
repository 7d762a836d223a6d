use phonia::engine::{AudioId, AudioSlots, DocumentStore, EngineError};

#[test]
fn ids_are_assigned_in_insertion_order_and_never_collide() {
    let mut store: AudioSlots<&str> = AudioSlots::new();
    let first = store.insert("first");
    let second = store.insert("second");
    assert_ne!(first, second);
    assert!(store.lookup(first).is_ok());
    assert!(store.lookup(second).is_ok());
    assert!(first.as_u64() < second.as_u64());
}

#[test]
fn unknown_id_is_a_typed_error_not_a_panic() {
    let store: AudioSlots<&str> = AudioSlots::new();
    let bogus = AudioId::from_u64(42);
    assert!(matches!(store.lookup(bogus), Err(EngineError::UnknownAudioId(id)) if id == bogus));
    assert!(store.get(bogus).is_none());
    assert!(!store.contains(bogus));
}

#[test]
fn as_u64_from_u64_round_trips() {
    let mut store: AudioSlots<&str> = AudioSlots::new();
    let id = store.insert("tiny");
    let round_tripped = AudioId::from_u64(id.as_u64());
    assert_eq!(id, round_tripped);
    assert!(store.lookup(round_tripped).is_ok());
}

#[test]
fn removed_entry_restores_under_its_own_id() {
    let mut store: AudioSlots<&str> = AudioSlots::new();
    let a = store.insert("a");
    let b = store.insert("b");
    assert_eq!(store.remove(a), Some("a"));
    assert!(store.lookup(a).is_err());
    assert_eq!(store.ids_sorted(), vec![b]);
    store.restore(a, "a");
    assert_eq!(store.ids_sorted(), vec![a, b]);
    let c = store.insert("c");
    assert!(c.as_u64() > b.as_u64());
}

#[test]
fn document_ids_start_empty_and_report_unknown_ids() {
    let docs = DocumentStore::new();
    assert!(docs.ids_sorted().is_empty());
    assert!(docs.get(phonia::engine::AnnotationId::from_u64(7)).is_err());
}
