use item_store::store::{Item, ItemStore, StoreError};

fn find_by_id(items: &[Item], id: usize) -> Option<&Item> {
    items.iter().find(|it| it.id == id)
}

#[test]
fn new_store_lists_nothing() {
    let s = ItemStore::new();
    assert_eq!(s.list().len(), 0);
    assert_eq!(s.peek_next_id(), 1);
}

#[test]
fn scenario_create_update_delete() {
    let mut s = ItemStore::new();

    let w = s.create("Widget".to_owned());
    assert_eq!(w.id, 1);
    assert_eq!(w.name, "Widget");

    let g = s.create("Gadget".to_owned());
    assert_eq!(g.id, 2);
    assert_eq!(g.name, "Gadget");

    let u = s.update(1, "WidgetPro".to_owned()).unwrap();
    assert_eq!(u.id, 1);
    assert_eq!(u.name, "WidgetPro");

    assert!(s.delete(2).is_ok());

    let l = s.list();
    assert_eq!(l.len(), 1);
    assert_eq!(l[0].id, 1);
    assert_eq!(l[0].name, "WidgetPro");

    assert_eq!(s.delete(2), Err(StoreError::NotFound));
}

#[test]
fn created_ids_are_distinct_and_positive() {
    let mut s = ItemStore::new();
    let mut ids: Vec<usize> = Vec::new();
    for k in 0..5 {
        let it = s.create(format!("item {k}"));
        assert!(it.id >= 1);
        assert!(!ids.contains(&it.id));
        ids.push(it.id);
    }
}

#[test]
fn created_ids_grow_and_are_never_reused() {
    let mut s = ItemStore::new();
    let a = s.create("first".to_owned());
    let b = s.create("second".to_owned());
    assert!(b.id > a.id);

    assert!(s.delete(b.id).is_ok());
    let c = s.create("third".to_owned());
    assert!(c.id > b.id);
}

#[test]
fn list_contains_what_create_returned() {
    let mut s = ItemStore::new();
    s.create("other".to_owned());
    let it = s.create("mine".to_owned());

    let l = s.list();
    let got = find_by_id(&l, it.id).expect("created item missing from list");
    assert_eq!(got.name, "mine");
}

#[test]
fn update_keeps_id_and_is_idempotent() {
    let mut s = ItemStore::new();
    let it = s.create("before".to_owned());

    let once = s.update(it.id, "after".to_owned()).unwrap();
    assert_eq!(once.id, it.id);
    assert_eq!(once.name, "after");

    let twice = s.update(it.id, "after".to_owned()).unwrap();
    assert_eq!(twice.id, once.id);
    assert_eq!(twice.name, once.name);

    let l = s.list();
    assert_eq!(l.len(), 1);
    assert_eq!(l[0].id, it.id);
    assert_eq!(l[0].name, "after");
}

#[test]
fn unknown_id_is_not_found_and_changes_nothing() {
    let mut s = ItemStore::new();
    s.create("keep".to_owned());

    let before = s.list();

    assert_eq!(s.update(0, "x".to_owned()).unwrap_err(), StoreError::NotFound);
    assert_eq!(s.update(999_999, "x".to_owned()).unwrap_err(), StoreError::NotFound);
    assert_eq!(s.delete(0), Err(StoreError::NotFound));
    assert_eq!(s.delete(999_999), Err(StoreError::NotFound));

    let after = s.list();
    assert_eq!(after.len(), before.len());
    for it in &before {
        let got = find_by_id(&after, it.id).expect("entry vanished");
        assert_eq!(got.name, it.name);
    }
}

#[test]
fn delete_removes_exactly_one() {
    let mut s = ItemStore::new();
    let a = s.create("a".to_owned());
    let b = s.create("b".to_owned());
    let c = s.create("c".to_owned());

    let before = s.list();
    assert!(s.delete(b.id).is_ok());
    let after = s.list();

    assert_eq!(after.len(), before.len() - 1);
    assert!(find_by_id(&after, b.id).is_none());
    assert!(find_by_id(&after, a.id).is_some());
    assert!(find_by_id(&after, c.id).is_some());
}

#[test]
fn empty_name_is_accepted() {
    let mut s = ItemStore::new();
    let it = s.create(String::new());
    assert_eq!(it.name, "");
    let l = s.list();
    assert_eq!(l.len(), 1);
    assert_eq!(l[0].name, "");
}

#[test]
fn peek_next_id_reports_the_id_create_returns() {
    let mut s = ItemStore::new();
    let expected = s.peek_next_id();
    let it = s.create("x".to_owned());
    assert_eq!(it.id, expected);
    assert_eq!(s.peek_next_id(), expected + 1);
}
