use estimate_store::model::{Decimal, Estimate, EstimateItem, Timestamp};
use estimate_store::rows::{HeaderRow, ItemRow};
use estimate_store::store::{EstimateStore, StoreError};

fn dec(x: f64) -> Decimal {
    Decimal { bits: x.to_bits() }
}

fn at(micros: i64) -> Timestamp {
    Timestamp { micros }
}

fn item(description: &str, quantity: f64, unit_price: f64, amount: f64) -> EstimateItem {
    EstimateItem::new(description.to_string(), dec(quantity), dec(unit_price), dec(amount))
}

fn estimate(client: &str, project: &str, items: Vec<EstimateItem>, total: f64) -> Estimate {
    Estimate::new(client.to_string(), project.to_string(), items, dec(total))
}

fn descriptions(e: &Estimate) -> Vec<String> {
    e.items.iter().map(|i| i.description.clone()).collect()
}

#[test]
fn acme_roof_round_trip() {
    let mut store = EstimateStore::new();
    let e = estimate("Acme", "Roof", vec![item("Shingles", 10.0, 5.0, 50.0)], 50.0);
    assert_eq!(store.save_estimate(e), Ok(1));
    let all = store.list_estimates();
    assert_eq!(all.len(), 1);
    let first = &all[0];
    assert_eq!(first.id, Some(1));
    assert_eq!(first.client_name, "Acme");
    assert_eq!(first.project_name, "Roof");
    assert_eq!(first.total_amount, dec(50.0));
    assert_eq!(first.items.len(), 1);
    assert_eq!(first.items[0].description, "Shingles");
    assert_eq!(first.items[0].quantity, dec(10.0));
    assert_eq!(first.items[0].unit_price, dec(5.0));
    assert_eq!(first.items[0].amount, dec(50.0));
}

#[test]
fn items_come_back_in_input_order() {
    let mut store = EstimateStore::new();
    let items = vec![item("a", 1.0, 2.0, 2.0), item("b", 3.0, 1.5, 4.5), item("c", 0.5, 4.0, 2.0)];
    let id = store.save_estimate_at(estimate("C", "P", items, 8.5), at(100)).unwrap();
    let e = store.get_estimate(id).unwrap();
    assert_eq!(descriptions(&e), vec!["a", "b", "c"]);
    assert_eq!(e.items[1].amount, dec(4.5));
    assert_eq!(e.total_amount, dec(8.5));
    assert_eq!(e.created_at, Some(at(100)));
    assert_eq!(e.updated_at, Some(at(100)));
}

#[test]
fn list_is_newest_first() {
    let mut store = EstimateStore::new();
    let a = store.save_estimate_at(estimate("A", "a", vec![], 1.0), at(10)).unwrap();
    let b = store.save_estimate_at(estimate("B", "b", vec![], 2.0), at(20)).unwrap();
    let ids: Vec<Option<i64>> = store.list_estimates().iter().map(|e| e.id).collect();
    assert_eq!(ids, vec![Some(b), Some(a)]);
}

#[test]
fn older_save_goes_after_newer_ones() {
    let mut store = EstimateStore::new();
    let a = store.save_estimate_at(estimate("A", "a", vec![], 1.0), at(30)).unwrap();
    let b = store.save_estimate_at(estimate("B", "b", vec![], 1.0), at(10)).unwrap();
    let c = store.save_estimate_at(estimate("C", "c", vec![], 1.0), at(20)).unwrap();
    let ids: Vec<Option<i64>> = store.list_estimates().iter().map(|e| e.id).collect();
    assert_eq!(ids, vec![Some(a), Some(c), Some(b)]);
}

#[test]
fn update_moves_estimate_to_front() {
    let mut store = EstimateStore::new();
    let a = store.save_estimate_at(estimate("A", "a", vec![], 1.0), at(10)).unwrap();
    let b = store.save_estimate_at(estimate("B", "b", vec![], 1.0), at(20)).unwrap();
    let mut e = estimate("A2", "a2", vec![], 3.0);
    e.id = Some(a);
    assert_eq!(store.update_estimate_at(e, at(30)), Ok(()));
    let all = store.list_estimates();
    assert_eq!(all[0].id, Some(a));
    assert_eq!(all[0].client_name, "A2");
    assert_eq!(all[0].total_amount, dec(3.0));
    assert_eq!(all[1].id, Some(b));
}

#[test]
fn update_keeps_created_at() {
    let mut store = EstimateStore::new();
    let id = store.save_estimate_at(estimate("A", "a", vec![], 1.0), at(5)).unwrap();
    for t in [7i64, 9, 12] {
        let mut e = estimate("A", "a", vec![], 1.0);
        e.id = Some(id);
        store.update_estimate_at(e, at(t)).unwrap();
        let got = store.get_estimate(id).unwrap();
        assert_eq!(got.created_at, Some(at(5)));
        assert_eq!(got.updated_at, Some(at(t)));
    }
}

#[test]
fn update_replaces_whole_item_set() {
    let mut store = EstimateStore::new();
    let items = vec![item("x", 1.0, 1.0, 1.0), item("y", 2.0, 1.0, 2.0), item("z", 3.0, 1.0, 3.0)];
    let id = store.save_estimate_at(estimate("C", "P", items, 6.0), at(1)).unwrap();
    let mut e = estimate("C", "P", vec![item("y", 2.0, 1.0, 2.0)], 2.0);
    e.id = Some(id);
    store.update_estimate_at(e, at(2)).unwrap();
    let got = store.get_estimate(id).unwrap();
    assert_eq!(descriptions(&got), vec!["y"]);
    assert_eq!(got.total_amount, dec(2.0));
}

#[test]
fn update_leaves_other_estimates_alone() {
    let mut store = EstimateStore::new();
    let a = store.save_estimate_at(estimate("A", "a", vec![item("a1", 1.0, 1.0, 1.0)], 1.0), at(1)).unwrap();
    let b = store.save_estimate_at(estimate("B", "b", vec![item("b1", 1.0, 1.0, 1.0)], 1.0), at(2)).unwrap();
    let mut e = estimate("A", "a", vec![], 0.0);
    e.id = Some(a);
    store.update_estimate_at(e, at(3)).unwrap();
    assert!(store.get_estimate(a).unwrap().items.is_empty());
    assert_eq!(descriptions(&store.get_estimate(b).unwrap()), vec!["b1"]);
}

#[test]
fn update_without_id_is_refused() {
    let mut store = EstimateStore::new();
    store.save_estimate_at(estimate("A", "a", vec![], 1.0), at(1)).unwrap();
    let r = store.update_estimate_at(estimate("A", "a", vec![], 2.0), at(2));
    assert_eq!(r, Err(StoreError::MissingId));
    assert_eq!(store.list_estimates()[0].total_amount, dec(1.0));
}

#[test]
fn update_of_unknown_id_is_not_found() {
    let mut store = EstimateStore::new();
    let mut e = estimate("A", "a", vec![item("i", 1.0, 1.0, 1.0)], 1.0);
    e.id = Some(42);
    assert_eq!(store.update_estimate_at(e, at(1)), Err(StoreError::NotFound(42)));
    assert!(store.list_estimates().is_empty());
}

#[test]
fn delete_removes_estimate_and_items() {
    let mut store = EstimateStore::new();
    let a = store.save_estimate_at(estimate("A", "a", vec![item("a1", 1.0, 1.0, 1.0)], 1.0), at(1)).unwrap();
    let b = store.save_estimate_at(estimate("B", "b", vec![item("b1", 1.0, 1.0, 1.0)], 1.0), at(2)).unwrap();
    store.delete_estimate(a);
    assert!(store.get_estimate(a).is_none());
    let all = store.list_estimates();
    assert_eq!(all.len(), 1);
    assert_eq!(all[0].id, Some(b));
    assert_eq!(descriptions(&all[0]), vec!["b1"]);
    // A later restore of a row under the deleted id finds no stale items.
    let row = HeaderRow {
        id: a,
        client_name: "A".to_string(),
        project_name: "a".to_string(),
        total_amount: dec(1.0),
        created_at: at(1),
        updated_at: at(1),
    };
    assert_eq!(store.restore_header(row), Ok(()));
    assert!(store.get_estimate(a).unwrap().items.is_empty());
}

#[test]
fn delete_of_unknown_id_changes_nothing() {
    let mut store = EstimateStore::new();
    let a = store.save_estimate_at(estimate("A", "a", vec![item("a1", 1.0, 1.0, 1.0)], 1.0), at(1)).unwrap();
    store.delete_estimate(99);
    let all = store.list_estimates();
    assert_eq!(all.len(), 1);
    assert_eq!(all[0].id, Some(a));
    assert_eq!(descriptions(&all[0]), vec!["a1"]);
}

#[test]
fn ids_are_not_reused_after_delete() {
    let mut store = EstimateStore::new();
    let a = store.save_estimate_at(estimate("A", "a", vec![], 1.0), at(1)).unwrap();
    store.delete_estimate(a);
    let b = store.save_estimate_at(estimate("B", "b", vec![], 1.0), at(2)).unwrap();
    assert_eq!(a, 1);
    assert_eq!(b, 2);
}

#[test]
fn exhausted_ids_refuse_save() {
    let mut store = EstimateStore::new();
    store.reserve_ids(i64::MAX);
    let r = store.save_estimate_at(estimate("A", "a", vec![], 1.0), at(1));
    assert_eq!(r, Err(StoreError::IdsExhausted));
    assert!(store.list_estimates().is_empty());
}

#[test]
fn reserved_ids_are_skipped() {
    let mut store = EstimateStore::new();
    store.reserve_ids(7);
    store.reserve_ids(3);
    assert_eq!(store.save_estimate_at(estimate("A", "a", vec![], 1.0), at(1)), Ok(8));
}

#[test]
fn restore_rebuilds_the_listing() {
    let mut store = EstimateStore::new();
    for (id, t) in [(4i64, 10i64), (2, 30), (9, 20)] {
        let row = HeaderRow {
            id,
            client_name: format!("c{}", id),
            project_name: format!("p{}", id),
            total_amount: dec(id as f64),
            created_at: at(1),
            updated_at: at(t),
        };
        assert_eq!(store.restore_header(row), Ok(()));
    }
    let row = ItemRow { estimate_id: 9, item: item("nine", 1.0, 9.0, 9.0) };
    assert_eq!(store.restore_item(row), Ok(()));
    let ids: Vec<Option<i64>> = store.list_estimates().iter().map(|e| e.id).collect();
    assert_eq!(ids, vec![Some(2), Some(9), Some(4)]);
    assert_eq!(descriptions(&store.get_estimate(9).unwrap()), vec!["nine"]);
    assert_eq!(store.save_estimate_at(estimate("n", "n", vec![], 0.0), at(40)), Ok(10));
}

#[test]
fn restore_refuses_bad_rows() {
    let mut store = EstimateStore::new();
    let header = |id: i64| HeaderRow {
        id,
        client_name: "c".to_string(),
        project_name: "p".to_string(),
        total_amount: dec(0.0),
        created_at: at(0),
        updated_at: at(0),
    };
    assert_eq!(store.restore_header(header(0)), Err(StoreError::InvalidId(0)));
    assert_eq!(store.restore_header(header(-3)), Err(StoreError::InvalidId(-3)));
    assert_eq!(store.restore_header(header(5)), Ok(()));
    assert_eq!(store.restore_header(header(5)), Err(StoreError::DuplicateId(5)));
    let row = ItemRow { estimate_id: 6, item: item("x", 1.0, 1.0, 1.0) };
    assert_eq!(store.restore_item(row), Err(StoreError::DanglingItem(6)));
    assert_eq!(store.list_estimates().len(), 1);
}

#[test]
fn clock_stamps_saves_and_updates() {
    let mut store = EstimateStore::new();
    let id = store.save_estimate(estimate("A", "a", vec![], 1.0)).unwrap();
    let saved = store.get_estimate(id).unwrap();
    let created = saved.created_at.unwrap();
    assert_eq!(saved.updated_at, Some(created));
    // After 2001-09-09: the clock was read, not left at zero.
    assert!(created.micros > 1_000_000_000_000_000);
    let mut e = estimate("A", "b", vec![], 2.0);
    e.id = Some(id);
    assert_eq!(store.update_estimate(e), Ok(()));
    let updated = store.get_estimate(id).unwrap();
    assert_eq!(updated.created_at, Some(created));
    assert!(updated.updated_at.unwrap().micros >= created.micros);
    assert_eq!(updated.project_name, "b");
}

#[test]
fn empty_store_lists_nothing() {
    let store = EstimateStore::new();
    assert!(store.list_estimates().is_empty());
    assert!(store.get_estimate(1).is_none());
}
