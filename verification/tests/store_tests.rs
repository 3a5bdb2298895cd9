use task_store::store::{
    add_new_task_map, get_task_by_id_map, remove_task_map, IdentifierGenerator, StoreError,
    TaskStore,
};
use task_store::task::Task;

#[test]
fn generator_starts_at_one_and_increases() {
    let mut g = IdentifierGenerator::new();
    assert_eq!(g.next_id(), 1);
    assert_eq!(g.next_id(), 2);
    assert_eq!(g.next_id(), 3);
}

#[test]
fn task_new_fields() {
    let t = Task::new(4, String::from("water the plants"), 99);
    assert_eq!(t.id, 4);
    assert_eq!(t.text, "water the plants");
    assert_eq!(t.created_at, 99);
    assert!(t.history.is_empty());
}

#[test]
fn create_ids_distinct_and_increasing() {
    let mut s = TaskStore::new();
    let a = s.create(String::from("one"), 10);
    let b = s.create(String::from("two"), 11);
    let c = s.create(String::from("three"), 12);
    assert_eq!(a.id, 1);
    assert_eq!(b.id, 2);
    assert_eq!(c.id, 3);
    assert!(a.id < b.id && b.id < c.id);
    assert!(a.id != b.id && b.id != c.id && a.id != c.id);
}

#[test]
fn create_then_get_round_trip() {
    let mut s = TaskStore::new();
    let t = s.create(String::from("buy milk"), 1000);
    let got = s.get(t.id).expect("created task must be live");
    assert_eq!(got.text, "buy milk");
    assert!(got.history.is_empty());
    assert_eq!(got.id, t.id);
    assert_eq!(got.created_at, 1000);
}

#[test]
fn update_appends_history() {
    let mut s = TaskStore::new();
    let t = s.create(String::from("a"), 50);
    assert_eq!(t.id, 1);
    assert_eq!(s.update(1, String::from("b")), Ok(()));
    let got = s.get(1).expect("updated task must stay live");
    assert_eq!(got.text, "b");
    assert_eq!(got.history.len(), 1);
    assert_eq!(got.history[0].text, "a");
    assert_eq!(got.history[0].id, 1);
    assert_eq!(got.history[0].created_at, 50);
    assert_eq!(got.created_at, 50);
    assert_eq!(got.id, 1);
}

#[test]
fn update_twice_keeps_both_versions() {
    let mut s = TaskStore::new();
    s.create(String::from("first"), 7);
    assert_eq!(s.update(1, String::from("second")), Ok(()));
    assert_eq!(s.update(1, String::from("third")), Ok(()));
    let got = s.get(1).expect("task must stay live");
    assert_eq!(got.text, "third");
    assert_eq!(got.history.len(), 2);
    assert_eq!(got.history[0].text, "first");
    assert_eq!(got.history[1].text, "second");
    assert!(got.history[0].history.is_empty());
    assert!(got.history[1].history.is_empty());
}

#[test]
fn remove_is_terminal() {
    let mut s = TaskStore::new();
    s.create(String::from("gone soon"), 3);
    let removed = s.remove(1).expect("task 1 is live");
    assert_eq!(removed.id, 1);
    assert_eq!(removed.text, "gone soon");
    assert!(s.get(1).is_none());
    let d = s.create(String::from("later"), 4);
    let e = s.create(String::from("after that"), 5);
    assert_ne!(d.id, 1);
    assert_ne!(e.id, 1);
    assert_eq!(d.id, 2);
    assert_eq!(e.id, 3);
}

#[test]
fn update_missing_id_reports_not_found() {
    let mut s = TaskStore::new();
    s.create(String::from("kept"), 8);
    assert_eq!(s.update(9, String::from("nothing")), Err(StoreError::NotFound));
    let got = s.get(1).expect("task 1 untouched");
    assert_eq!(got.text, "kept");
    assert!(got.history.is_empty());
    assert_eq!(s.list().len(), 1);
}

#[test]
fn remove_missing_id_reports_not_found() {
    let mut s = TaskStore::new();
    s.create(String::from("kept"), 8);
    assert!(matches!(s.remove(9), Err(StoreError::NotFound)));
    assert!(matches!(s.remove(0), Err(StoreError::NotFound)));
    assert_eq!(s.list().len(), 1);
    let got = s.get(1).expect("task 1 untouched");
    assert_eq!(got.text, "kept");
}

#[test]
fn not_found_on_empty_store() {
    let mut s = TaskStore::new();
    assert!(s.get(1).is_none());
    assert_eq!(s.update(1, String::from("x")), Err(StoreError::NotFound));
    assert!(matches!(s.remove(1), Err(StoreError::NotFound)));
    assert!(s.list().is_empty());
}

#[test]
fn list_scenario_create_create_remove() {
    let mut s = TaskStore::new();
    assert!(s.list().is_empty());
    let x = s.create(String::from("x"), 20);
    let y = s.create(String::from("y"), 21);
    assert_eq!(x.id, 1);
    assert_eq!(y.id, 2);
    let mut all = s.list();
    all.sort_by_key(|t| t.id);
    assert_eq!(all.len(), 2);
    assert_eq!(all[0].id, 1);
    assert_eq!(all[0].text, "x");
    assert_eq!(all[1].id, 2);
    assert_eq!(all[1].text, "y");
    s.remove(1).expect("task 1 is live");
    let rest = s.list();
    assert_eq!(rest.len(), 1);
    assert_eq!(rest[0].id, 2);
    assert_eq!(rest[0].text, "y");
}

#[test]
fn list_hands_out_copies() {
    let mut s = TaskStore::new();
    s.create(String::from("original"), 1);
    let mut all = s.list();
    all[0].text = String::from("scribbled on");
    let got = s.get(1).expect("task 1 is live");
    assert_eq!(got.text, "original");
}

#[test]
fn map_helpers_match_methods() {
    let mut s = TaskStore::new();
    add_new_task_map(&mut s, String::from("from helper"), 30);
    let got = get_task_by_id_map(1, &s).expect("task 1 is live");
    assert_eq!(got.text, "from helper");
    assert_eq!(got.created_at, 30);
    assert!(get_task_by_id_map(2, &s).is_none());
    let removed = remove_task_map(1, &mut s).expect("task 1 is live");
    assert_eq!(removed.id, 1);
    assert!(remove_task_map(1, &mut s).is_none());
    assert!(get_task_by_id_map(1, &s).is_none());
}

#[test]
fn duplicate_preserves_task() {
    let mut s = TaskStore::new();
    s.create(String::from("to copy"), 44);
    s.update(1, String::from("copied")).expect("task 1 is live");
    let got = s.get(1).expect("task 1 is live");
    let copy = got.duplicate();
    assert_eq!(copy.id, got.id);
    assert_eq!(copy.text, got.text);
    assert_eq!(copy.created_at, got.created_at);
    assert_eq!(copy.history.len(), 1);
    assert_eq!(copy.history[0].text, "to copy");
}
