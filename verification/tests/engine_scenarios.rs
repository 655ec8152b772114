use reconcile::children_diff::ChildCall;
use reconcile::children_diff::ChildrenDiff;
use reconcile::children_diff::SeriousValue;

fn is_changed(c: &ChildCall<String>) -> bool {
    matches!(c, ChildCall::Changed)
}

#[test]
fn scenario_insert_creates_child() {
    let mut engine: ChildrenDiff<String, u64> = ChildrenDiff::new();
    engine.upsert("a".to_string(), 1);
    let calls = engine.process_pending();
    assert_eq!(calls.len(), 2);
    assert!(matches!(&calls[0], ChildCall::CreateChild { key, node: 0 } if key == "a"));
    assert!(is_changed(&calls[1]));

    let handle: SeriousValue<String, u64> = SeriousValue::new("a".to_string(), 0);
    assert_eq!(handle.current(&engine), 1);
    assert_eq!(engine.node_of(&"a".to_string()), Some(0));
}

#[test]
fn scenario_upsert_existing_updates_in_place() {
    let mut engine: ChildrenDiff<String, u64> = ChildrenDiff::new();
    engine.upsert("a".to_string(), 1);
    engine.process_pending();
    let node_before = engine.node_of(&"a".to_string());

    engine.upsert("a".to_string(), 2);
    let calls = engine.process_pending();
    assert_eq!(calls.len(), 2);
    assert!(matches!(&calls[0], ChildCall::UpdateChild { key } if key == "a"));
    assert!(is_changed(&calls[1]));
    assert!(!calls.iter().any(|c| matches!(c, ChildCall::RemoveChild { .. })));
    assert!(!calls.iter().any(|c| matches!(c, ChildCall::CreateChild { .. })));

    // the same node is retained, and the handle reads the new value
    assert_eq!(engine.node_of(&"a".to_string()), node_before);
    let handle: SeriousValue<String, u64> = SeriousValue::new("a".to_string(), 0);
    assert_eq!(handle.current(&engine), 2);
}

#[test]
fn scenario_clear_removes_in_key_order_one_change() {
    let mut engine: ChildrenDiff<String, u64> = ChildrenDiff::new();
    engine.upsert("a".to_string(), 1);
    engine.upsert("b".to_string(), 2);
    engine.process_pending();

    engine.clear();
    let calls = engine.process_pending();
    assert_eq!(calls.len(), 3);
    assert!(matches!(&calls[0], ChildCall::RemoveChild { key, node: 0 } if key == "a"));
    assert!(matches!(&calls[1], ChildCall::RemoveChild { key, node: 1 } if key == "b"));
    assert!(is_changed(&calls[2]));
    assert_eq!(calls.iter().filter(|c| is_changed(c)).count(), 1);
    assert!(engine.items_keys().is_empty());
    assert_eq!(engine.len(), 0);
}

#[test]
fn scenario_remove_missing_is_a_noop() {
    let mut engine: ChildrenDiff<String, u64> = ChildrenDiff::new();
    engine.remove(&"missing".to_string());
    assert_eq!(engine.pending_len(), 0);
    let calls = engine.process_pending();
    assert!(calls.is_empty());
    assert_eq!(engine.len(), 0);
    assert!(engine.items_keys().is_empty());
}

#[test]
fn handle_signal_falls_back_to_default_after_removal() {
    let mut engine: ChildrenDiff<String, u64> = ChildrenDiff::new();
    engine.upsert("a".to_string(), 7);
    engine.process_pending();

    let handle: SeriousValue<String, u64> = SeriousValue::new("a".to_string(), 42);
    assert_eq!(handle.signal(&engine), 7);

    engine.remove(&"a".to_string());
    engine.process_pending();
    assert_eq!(handle.signal(&engine), 42);
}

#[test]
fn handle_update_triggers_update_event() {
    let mut engine: ChildrenDiff<String, u64> = ChildrenDiff::new();
    engine.upsert("a".to_string(), 10);
    engine.process_pending();

    let handle: SeriousValue<String, u64> = SeriousValue::new("a".to_string(), 0);
    handle.update(&mut engine, |v| v + 5);
    assert_eq!(handle.current(&engine), 15);
    let calls = engine.process_pending();
    assert_eq!(calls.len(), 2);
    assert!(matches!(&calls[0], ChildCall::UpdateChild { key } if key == "a"));
    assert!(is_changed(&calls[1]));
}

#[test]
fn handle_map_ref_reads_without_cloning() {
    let mut engine: ChildrenDiff<String, u64> = ChildrenDiff::new();
    engine.upsert("a".to_string(), 3);
    engine.process_pending();
    let handle: SeriousValue<String, u64> = SeriousValue::new("a".to_string(), 0);
    assert_eq!(*handle.map_ref(&engine), 3);
}
