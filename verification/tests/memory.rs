use todo_api::repositories::{
    CreateTodo, RepositoryError, Todo, TodoRepository, TodoRepositoryForMemory, UpdateTodo,
};

#[test]
fn todo_new_starts_not_completed() {
    let t = Todo::new(5, "walk".to_string());
    assert_eq!(t.id(), 5);
    assert_eq!(t.text(), "walk");
    assert!(!t.completed());
}

#[test]
fn create_assigns_sequential_ids() {
    let mut repo = TodoRepositoryForMemory::new();
    let a = repo.create(CreateTodo::new("a".to_string()));
    let b = repo.create(CreateTodo::new("b".to_string()));
    assert_eq!(a.id(), 1);
    assert_eq!(b.id(), 2);
    assert!(!a.completed());
}

#[test]
fn find_returns_the_stored_record() {
    let mut repo = TodoRepositoryForMemory::new();
    let t = repo.create(CreateTodo::new("read".to_string()));
    assert_eq!(repo.find(t.id()), Some(t));
    assert_eq!(repo.find(99), None);
}

#[test]
fn all_returns_every_record() {
    let mut repo = TodoRepositoryForMemory::new();
    let a = repo.create(CreateTodo::new("a".to_string()));
    let b = repo.create(CreateTodo::new("b".to_string()));
    let mut all = repo.all();
    all.sort_by_key(|t| t.id());
    assert_eq!(all, vec![a, b]);
}

#[test]
fn update_rewrites_present_fields_and_keeps_absent_ones() {
    let mut repo = TodoRepositoryForMemory::new();
    let t = repo.create(CreateTodo::new("draft".to_string()));
    let u = repo.update(t.id(), UpdateTodo::new(None, Some(true))).unwrap();
    assert_eq!(u.text(), "draft");
    assert!(u.completed());
    let v = repo
        .update(t.id(), UpdateTodo::new(Some("final".to_string()), None))
        .unwrap();
    assert_eq!(v.text(), "final");
    assert!(v.completed());
}

#[test]
fn update_missing_record_fails_with_not_found() {
    let mut repo = TodoRepositoryForMemory::new();
    let r = repo.update(4, UpdateTodo::new(None, Some(true)));
    assert_eq!(r, Err(RepositoryError::NotFound(4)));
}

#[test]
fn delete_removes_the_record() {
    let mut repo = TodoRepositoryForMemory::new();
    let t = repo.create(CreateTodo::new("gone".to_string()));
    assert_eq!(repo.delete(t.id()), Ok(()));
    assert_eq!(repo.find(t.id()), None);
    assert_eq!(repo.delete(t.id()), Err(RepositoryError::NotFound(t.id())));
}

#[test]
fn id_assignment_reuses_a_freed_id_after_deletion() {
    let mut repo = TodoRepositoryForMemory::new();
    let a = repo.create(CreateTodo::new("a".to_string()));
    repo.delete(a.id()).unwrap();
    let b = repo.create(CreateTodo::new("b".to_string()));
    assert_eq!(b.id(), 1);
}

#[test]
fn id_collision_after_deletion_overwrites_the_survivor() {
    let mut repo = TodoRepositoryForMemory::new();
    let a = repo.create(CreateTodo::new("a".to_string()));
    let b = repo.create(CreateTodo::new("b".to_string()));
    repo.delete(a.id()).unwrap();
    let c = repo.create(CreateTodo::new("c".to_string()));
    assert_eq!(c.id(), b.id());
    assert_eq!(repo.find(b.id()), Some(c));
    assert_eq!(repo.all().len(), 1);
}
