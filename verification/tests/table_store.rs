use todo_api::repositories::label::{Label, LabelRepository};
use todo_api::repositories::todo::{CreateTodo, TableStore, TodoRepository, UpdateTodo};
use todo_api::repositories::RepositoryError;

fn label(store: &mut TableStore, name: &str) -> Label {
    LabelRepository::create(store, name.to_string()).unwrap()
}

#[test]
fn end_to_end_lifecycle() {
    let mut s = TableStore::new();
    let e = TodoRepository::create(&mut s, CreateTodo::new("buy milk".to_string(), vec![]))
        .unwrap();
    assert_eq!(e.id, 1);
    assert!(!e.completed);
    assert!(e.labels.is_empty());
    let u = s.update(e.id, UpdateTodo::new(None, Some(true), None)).unwrap();
    assert!(u.completed);
    assert_eq!(u.text, "buy milk");
    TodoRepository::delete(&mut s, e.id).unwrap();
    assert_eq!(s.find(e.id), Err(RepositoryError::NotFound(e.id)));
}

#[test]
fn create_then_find_carries_the_requested_labels() {
    let mut s = TableStore::new();
    let l1 = label(&mut s, "home");
    let l2 = label(&mut s, "work");
    let e = TodoRepository::create(
        &mut s,
        CreateTodo::new("task".to_string(), vec![l1.id, l2.id]),
    )
    .unwrap();
    let f = s.find(e.id).unwrap();
    assert_eq!(f, e);
    assert_eq!(f.labels, vec![l1, l2]);
}

#[test]
fn create_with_unknown_label_fails_and_changes_nothing() {
    let mut s = TableStore::new();
    let r = TodoRepository::create(&mut s, CreateTodo::new("task".to_string(), vec![42]));
    assert!(matches!(r, Err(RepositoryError::Unexpected(_))));
    let all = TodoRepository::all(&s).unwrap();
    assert!(all.is_empty());
}

#[test]
fn create_with_repeated_label_fails() {
    let mut s = TableStore::new();
    let l = label(&mut s, "home");
    let r = TodoRepository::create(&mut s, CreateTodo::new("task".to_string(), vec![l.id, l.id]));
    assert!(matches!(r, Err(RepositoryError::Unexpected(_))));
}

#[test]
fn update_with_empty_payload_is_a_no_op() {
    let mut s = TableStore::new();
    let l = label(&mut s, "home");
    let e = TodoRepository::create(&mut s, CreateTodo::new("task".to_string(), vec![l.id]))
        .unwrap();
    let before = s.find(e.id).unwrap();
    let u = s.update(e.id, UpdateTodo::new(None, None, None)).unwrap();
    assert_eq!(u, before);
    assert_eq!(s.find(e.id).unwrap(), before);
}

#[test]
fn update_with_empty_label_list_clears_associations() {
    let mut s = TableStore::new();
    let l = label(&mut s, "home");
    let e = TodoRepository::create(&mut s, CreateTodo::new("task".to_string(), vec![l.id]))
        .unwrap();
    assert_eq!(e.labels.len(), 1);
    let u = s.update(e.id, UpdateTodo::new(None, None, Some(vec![]))).unwrap();
    assert!(u.labels.is_empty());
    assert!(s.find(e.id).unwrap().labels.is_empty());
}

#[test]
fn update_replaces_the_whole_association_set() {
    let mut s = TableStore::new();
    let l1 = label(&mut s, "home");
    let l2 = label(&mut s, "work");
    let e = TodoRepository::create(&mut s, CreateTodo::new("task".to_string(), vec![l1.id]))
        .unwrap();
    let u = s.update(e.id, UpdateTodo::new(None, None, Some(vec![l2.id]))).unwrap();
    assert_eq!(u.labels, vec![l2]);
}

#[test]
fn update_keeps_absent_fields() {
    let mut s = TableStore::new();
    let e = TodoRepository::create(&mut s, CreateTodo::new("old text".to_string(), vec![]))
        .unwrap();
    let u = s
        .update(e.id, UpdateTodo::new(Some("new text".to_string()), None, None))
        .unwrap();
    assert_eq!(u.text, "new text");
    assert!(!u.completed);
}

#[test]
fn update_missing_todo_fails_with_not_found() {
    let mut s = TableStore::new();
    let r = s.update(9, UpdateTodo::new(None, Some(true), None));
    assert_eq!(r, Err(RepositoryError::NotFound(9)));
}

#[test]
fn update_with_unknown_label_fails_and_rolls_back() {
    let mut s = TableStore::new();
    let l = label(&mut s, "home");
    let e = TodoRepository::create(&mut s, CreateTodo::new("task".to_string(), vec![l.id]))
        .unwrap();
    let r = s.update(e.id, UpdateTodo::new(Some("changed".to_string()), None, Some(vec![77])));
    assert!(matches!(r, Err(RepositoryError::Unexpected(_))));
    let f = s.find(e.id).unwrap();
    assert_eq!(f.text, "task");
    assert_eq!(f.labels, vec![l]);
}

#[test]
fn delete_missing_todo_fails_with_not_found() {
    let mut s = TableStore::new();
    assert_eq!(TodoRepository::delete(&mut s, 3), Err(RepositoryError::NotFound(3)));
}

#[test]
fn all_returns_newest_first() {
    let mut s = TableStore::new();
    for text in ["first", "second", "third"] {
        TodoRepository::create(&mut s, CreateTodo::new(text.to_string(), vec![])).unwrap();
    }
    let all = TodoRepository::all(&s).unwrap();
    let ids: Vec<i32> = all.iter().map(|e| e.id).collect();
    assert_eq!(ids, vec![3, 2, 1]);
    assert_eq!(all[0].text, "third");
}

#[test]
fn duplicate_label_name_fails_with_existing_id() {
    let mut s = TableStore::new();
    let l = label(&mut s, "home");
    let r = LabelRepository::create(&mut s, "home".to_string());
    assert_eq!(r, Err(RepositoryError::Duplicate(l.id)));
    assert_eq!(LabelRepository::all(&s).len(), 1);
}

#[test]
fn label_names_are_case_sensitive() {
    let mut s = TableStore::new();
    label(&mut s, "home");
    let r = LabelRepository::create(&mut s, "Home".to_string());
    assert!(r.is_ok());
    assert_eq!(LabelRepository::all(&s).len(), 2);
}

#[test]
fn labels_come_back_in_ascending_id_order() {
    let mut s = TableStore::new();
    label(&mut s, "a");
    label(&mut s, "b");
    label(&mut s, "c");
    let ids: Vec<i32> = LabelRepository::all(&s).iter().map(|l| l.id).collect();
    assert_eq!(ids, vec![1, 2, 3]);
}

#[test]
fn label_delete_missing_fails_with_not_found() {
    let mut s = TableStore::new();
    assert_eq!(LabelRepository::delete(&mut s, 8), Err(RepositoryError::NotFound(8)));
}

#[test]
fn deleting_a_label_leaves_the_todo_but_drops_it_from_hydration() {
    let mut s = TableStore::new();
    let l1 = label(&mut s, "home");
    let l2 = label(&mut s, "work");
    let e = TodoRepository::create(
        &mut s,
        CreateTodo::new("task".to_string(), vec![l1.id, l2.id]),
    )
    .unwrap();
    LabelRepository::delete(&mut s, l1.id).unwrap();
    let f = s.find(e.id).unwrap();
    assert_eq!(f.labels, vec![l2]);
}

#[test]
fn delete_removes_associations_so_labels_stay_reusable() {
    let mut s = TableStore::new();
    let l = label(&mut s, "home");
    let e = TodoRepository::create(&mut s, CreateTodo::new("task".to_string(), vec![l.id]))
        .unwrap();
    TodoRepository::delete(&mut s, e.id).unwrap();
    assert_eq!(s.find(e.id), Err(RepositoryError::NotFound(e.id)));
    assert_eq!(LabelRepository::all(&s), vec![l.clone()]);
    let again = TodoRepository::create(&mut s, CreateTodo::new("again".to_string(), vec![l.id]))
        .unwrap();
    assert_eq!(again.labels, vec![l]);
}
