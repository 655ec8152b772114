use reconcile::children_diff::ChildCall;
use reconcile::children_diff::ChildrenDiff;

fn changed_count<K>(calls: &[ChildCall<K>]) -> usize {
    calls.iter().filter(|c| matches!(c, ChildCall::Changed)).count()
}

#[test]
fn order_preservation_items_iterate_in_key_order() {
    let mut engine: ChildrenDiff<u64, u64> = ChildrenDiff::new();
    engine.upsert(3, 30);
    engine.upsert(1, 10);
    engine.upsert(2, 20);
    engine.process_pending();
    assert_eq!(engine.keys(), vec![1, 2, 3]);
    assert_eq!(engine.items_keys(), vec![1, 2, 3]);
}

#[test]
fn replace_coalesces_to_one_change() {
    let mut engine: ChildrenDiff<u64, u64> = ChildrenDiff::new();
    engine.upsert(1, 1);
    engine.upsert(2, 2);
    engine.process_pending();

    let entries: Vec<(u64, u64)> = vec![(10, 100), (11, 110), (12, 120), (13, 130), (14, 140)];
    engine.replace(entries);
    let calls = engine.process_pending();
    assert_eq!(changed_count(&calls), 1);
    assert!(matches!(calls.last(), Some(ChildCall::Changed)));
    let creations = calls.iter().filter(|c| matches!(c, ChildCall::CreateChild { .. })).count();
    let removals = calls.iter().filter(|c| matches!(c, ChildCall::RemoveChild { .. })).count();
    assert_eq!(creations, 5);
    assert_eq!(removals, 2);
    assert_eq!(engine.items_keys(), vec![10, 11, 12, 13, 14]);
}

#[test]
fn batched_mutations_fire_one_change() {
    let mut engine: ChildrenDiff<u64, u64> = ChildrenDiff::new();
    engine.upsert(1, 1);
    engine.upsert(2, 2);
    engine.upsert(3, 3);
    let calls = engine.process_pending();
    assert_eq!(changed_count(&calls), 1);
    assert!(matches!(calls.last(), Some(ChildCall::Changed)));
    assert_eq!(calls.len(), 4);
}

#[test]
fn update_with_absent_key_changes_nothing() {
    let mut engine: ChildrenDiff<u64, u64> = ChildrenDiff::new();
    engine.upsert(1, 5);
    engine.process_pending();

    let applied = engine.update_with(&2, |v| v + 1);
    assert!(!applied);
    assert_eq!(engine.pending_len(), 0);
    let calls = engine.process_pending();
    assert!(calls.is_empty());
    assert_eq!(engine.len(), 1);
    assert_eq!(engine.get(&1), Some(&5));
    assert_eq!(engine.get(&2), None);
}

#[test]
fn update_with_present_key_applies_transform() {
    let mut engine: ChildrenDiff<u64, u64> = ChildrenDiff::new();
    engine.upsert(1, 5);
    engine.process_pending();

    let applied = engine.update_with(&1, |v| v * 3);
    assert!(applied);
    assert_eq!(engine.get(&1), Some(&15));
    let calls = engine.process_pending();
    assert!(matches!(&calls[0], ChildCall::UpdateChild { key: 1 }));
    assert_eq!(changed_count(&calls), 1);
}

#[test]
fn items_stay_in_lock_step_with_the_map() {
    let mut engine: ChildrenDiff<u64, u64> = ChildrenDiff::new();
    engine.upsert(5, 50);
    engine.upsert(3, 30);
    engine.process_pending();
    engine.remove(&5);
    engine.upsert(8, 80);
    engine.upsert(3, 31);
    engine.process_pending();
    engine.clear();
    engine.upsert(2, 20);
    engine.process_pending();
    assert_eq!(engine.keys(), engine.items_keys());

    engine.replace(vec![(7, 70), (4, 40)]);
    engine.process_pending();
    assert_eq!(engine.keys(), engine.items_keys());
    assert_eq!(engine.keys(), vec![4, 7]);
}

#[test]
fn interleaved_insert_and_remove_settle_empty() {
    let mut engine: ChildrenDiff<u64, u64> = ChildrenDiff::new();
    engine.upsert(1, 1);
    engine.remove(&1);
    let calls = engine.process_pending();
    assert!(matches!(&calls[0], ChildCall::CreateChild { key: 1, node: 0 }));
    assert!(calls.iter().any(|c| matches!(c, ChildCall::RemoveChild { key: 1, node: 0 })));
    assert!(engine.items_keys().is_empty());
    assert_eq!(engine.len(), 0);
}

#[test]
fn node_handles_are_fresh_across_reinsertion() {
    let mut engine: ChildrenDiff<u64, u64> = ChildrenDiff::new();
    engine.upsert(1, 1);
    engine.process_pending();
    assert_eq!(engine.node_of(&1), Some(0));
    engine.remove(&1);
    engine.upsert(1, 2);
    engine.process_pending();
    assert_eq!(engine.node_of(&1), Some(1));
}
