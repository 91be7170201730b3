use media_relay::registry::Registry;
use media_relay::subscriber::subscriber_join;

#[test]
fn create_then_join_records_observers_in_order() {
    let mut registry = Registry::new();
    registry.create("callA".to_string());
    assert!(registry.join(&"callA".to_string(), 1));
    assert!(registry.join(&"callA".to_string(), 2));
    let observers = registry.observers_of(&"callA".to_string()).unwrap();
    assert_eq!(observers, vec![1, 2]);
}

#[test]
fn create_is_idempotent() {
    let mut registry = Registry::new();
    registry.create("callA".to_string());
    assert!(registry.join(&"callA".to_string(), 7));
    registry.create("callA".to_string());
    assert_eq!(registry.snapshot_ids(), vec!["callA".to_string()]);
    assert_eq!(registry.observers_of(&"callA".to_string()).unwrap(), vec![7]);
}

#[test]
fn snapshot_lists_all_calls_in_entry_order() {
    let mut registry = Registry::new();
    registry.create("callA".to_string());
    registry.create("callB".to_string());
    assert_eq!(registry.snapshot_ids(), vec!["callA".to_string(), "callB".to_string()]);
}

#[test]
fn join_unknown_call_is_a_silent_no_op() {
    let mut registry = Registry::new();
    registry.create("callA".to_string());
    assert!(!registry.join(&"ghost".to_string(), 9));
    assert_eq!(registry.snapshot_ids(), vec!["callA".to_string()]);
    assert!(registry.observers_of(&"ghost".to_string()).is_none());
    assert_eq!(registry.observers_of(&"callA".to_string()).unwrap(), Vec::<u64>::new());
}

#[test]
fn subscriber_join_trims_surrounding_whitespace() {
    let mut registry = Registry::new();
    registry.create("callA".to_string());
    assert!(subscriber_join(&mut registry, &"  callA \n".to_string(), 3));
    assert_eq!(registry.observers_of(&"callA".to_string()).unwrap(), vec![3]);
    assert!(!subscriber_join(&mut registry, &"  callB ".to_string(), 4));
    assert_eq!(registry.observers_of(&"callA".to_string()).unwrap(), vec![3]);
}

#[test]
fn prune_keeps_exactly_the_delivered_observers() {
    let mut registry = Registry::new();
    registry.create("callA".to_string());
    for observer in [10, 11, 12, 13] {
        assert!(registry.join(&"callA".to_string(), observer));
    }
    registry.prune_failed(&"callA".to_string(), &vec![true, false, true, false]);
    assert_eq!(registry.observers_of(&"callA".to_string()).unwrap(), vec![10, 12]);
    // the survivors are the targets of the next broadcast
    registry.prune_failed(&"callA".to_string(), &vec![true, true]);
    assert_eq!(registry.observers_of(&"callA".to_string()).unwrap(), vec![10, 12]);
}

#[test]
fn prune_unknown_call_changes_nothing() {
    let mut registry = Registry::new();
    registry.create("callA".to_string());
    assert!(registry.join(&"callA".to_string(), 5));
    registry.prune_failed(&"ghost".to_string(), &vec![]);
    assert_eq!(registry.observers_of(&"callA".to_string()).unwrap(), vec![5]);
}

#[test]
fn remove_and_close_hands_back_every_observer_once() {
    let mut registry = Registry::new();
    registry.create("callA".to_string());
    registry.create("callB".to_string());
    assert!(registry.join(&"callA".to_string(), 1));
    assert!(registry.join(&"callA".to_string(), 2));
    assert!(registry.join(&"callB".to_string(), 3));
    let closed = registry.remove_and_close(&"callA".to_string()).unwrap();
    assert_eq!(closed, vec![1, 2]);
    assert_eq!(registry.snapshot_ids(), vec!["callB".to_string()]);
    assert!(registry.observers_of(&"callA".to_string()).is_none());
    assert_eq!(registry.observers_of(&"callB".to_string()).unwrap(), vec![3]);
    assert!(registry.remove_and_close(&"callA".to_string()).is_none());
}
