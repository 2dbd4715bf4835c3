use todo_api::repositories::label::Label;
use todo_api::repositories::todo::{fold_entities, TodoEntity, TodoWithLabelFromRow};

fn row(
    id: i32,
    text: &str,
    completed: bool,
    label_id: Option<i32>,
    label_name: Option<&str>,
) -> TodoWithLabelFromRow {
    TodoWithLabelFromRow::new(
        id,
        text.to_string(),
        completed,
        label_id,
        label_name.map(|s| s.to_string()),
    )
}

#[test]
fn fold_two_todos_with_labels() {
    let rows = vec![
        row(1, "a", false, Some(10), Some("x")),
        row(1, "a", false, Some(11), Some("y")),
        row(2, "b", true, None, None),
    ];
    let out = fold_entities(rows);
    assert_eq!(out.len(), 2);
    assert_eq!(
        out[0],
        TodoEntity {
            id: 1,
            text: "a".to_string(),
            completed: false,
            labels: vec![Label::new(10, "x".to_string()), Label::new(11, "y".to_string())],
        }
    );
    assert_eq!(
        out[1],
        TodoEntity { id: 2, text: "b".to_string(), completed: true, labels: vec![] }
    );
}

#[test]
fn fold_empty_input() {
    let out = fold_entities(vec![]);
    assert!(out.is_empty());
}

#[test]
fn fold_single_todo_without_labels() {
    let out = fold_entities(vec![row(7, "solo", false, None, None)]);
    assert_eq!(
        out,
        vec![TodoEntity { id: 7, text: "solo".to_string(), completed: false, labels: vec![] }]
    );
}

#[test]
fn fold_keeps_first_seen_order_when_rows_interleave() {
    let rows = vec![
        row(2, "b", false, Some(1), Some("p")),
        row(5, "e", true, Some(2), Some("q")),
        row(2, "b", false, Some(3), Some("r")),
    ];
    let out = fold_entities(rows);
    assert_eq!(out.len(), 2);
    assert_eq!(out[0].id, 2);
    assert_eq!(
        out[0].labels,
        vec![Label::new(1, "p".to_string()), Label::new(3, "r".to_string())]
    );
    assert_eq!(out[1].id, 5);
    assert_eq!(out[1].labels, vec![Label::new(2, "q".to_string())]);
}
