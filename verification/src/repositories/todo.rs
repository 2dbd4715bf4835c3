//! Labeled todos: the nested entity, the flattened join rows it is
//! rebuilt from, the row-folding algorithm, and the table-level model
//! of the relational repository.

use vstd::prelude::*;

use crate::repositories::label::{
    has_label_id, has_label_name, label_id_of_name, label_of_id, other_label, remove_label, Label,
    LabelRepository, LabelView,
};
use crate::repositories::RepositoryError;
use crate::repositories::TodoView;

verus! {

/// A row of the plain `todos` table.
#[derive(Debug, PartialEq, Eq)]
pub struct TodoFromRow {
    id: i32,
    text: String,
    completed: bool,
}

impl View for TodoFromRow {
    type V = TodoView;

    closed spec fn view(&self) -> TodoView {
        TodoView { id: self.id as int, text: self.text@, completed: self.completed }
    }
}

impl Clone for TodoFromRow {
    fn clone(&self) -> (r: Self)
        ensures
            r@ == self@,
    {
        TodoFromRow { id: self.id, text: self.text.clone(), completed: self.completed }
    }
}

impl TodoFromRow {
    pub fn new(id: i32, text: String, completed: bool) -> (r: Self)
        ensures
            r@ == (TodoView { id: id as int, text: text@, completed }),
    {
        TodoFromRow { id, text, completed }
    }
}

/// Mathematical image of one row of the left-outer-join result.
#[verifier::ext_equal]
pub ghost struct RowView {
    pub id: int,
    pub text: Seq<char>,
    pub completed: bool,
    pub label_id: Option<int>,
    pub label_name: Option<Seq<char>>,
}

/// One row of the join from todos over their associations to labels.
/// A todo without labels yields a single row with both label fields
/// absent.
#[derive(Debug, PartialEq, Eq)]
pub struct TodoWithLabelFromRow {
    id: i32,
    text: String,
    completed: bool,
    label_id: Option<i32>,
    label_name: Option<String>,
}

impl View for TodoWithLabelFromRow {
    type V = RowView;

    closed spec fn view(&self) -> RowView {
        RowView {
            id: self.id as int,
            text: self.text@,
            completed: self.completed,
            label_id: match self.label_id {
                Some(l) => Some(l as int),
                None => None,
            },
            label_name: match self.label_name {
                Some(n) => Some(n@),
                None => None,
            },
        }
    }
}

impl TodoWithLabelFromRow {
    pub fn new(
        id: i32,
        text: String,
        completed: bool,
        label_id: Option<i32>,
        label_name: Option<String>,
    ) -> (r: Self)
        ensures
            r@ == (RowView {
                id: id as int,
                text: text@,
                completed,
                label_id: match label_id {
                    Some(l) => Some(l as int),
                    None => None::<int>,
                },
                label_name: match label_name {
                    Some(n) => Some(n@),
                    None => None::<Seq<char>>,
                },
            }),
    {
        TodoWithLabelFromRow { id, text, completed, label_id, label_name }
    }
}

/// Mathematical image of a hydrated todo entity.
#[verifier::ext_equal]
pub ghost struct EntityView {
    pub id: int,
    pub text: Seq<char>,
    pub completed: bool,
    pub labels: Seq<LabelView>,
}

/// A todo together with the labels currently associated with it.
#[derive(Debug, PartialEq, Eq)]
pub struct TodoEntity {
    pub id: i32,
    pub text: String,
    pub completed: bool,
    pub labels: Vec<Label>,
}

impl View for TodoEntity {
    type V = EntityView;

    open spec fn view(&self) -> EntityView {
        EntityView {
            id: self.id as int,
            text: self.text@,
            completed: self.completed,
            labels: self.labels@.map_values(|l: Label| l@),
        }
    }
}

impl Clone for TodoEntity {
    fn clone(&self) -> (r: Self)
        ensures
            r@ == self@,
    {
        let mut labels: Vec<Label> = Vec::new();
        let mut i: usize = 0;
        while i < self.labels.len()
            invariant
                i <= self.labels@.len(),
                labels@.len() == i,
                forall|k: int| 0 <= k < i ==> labels@[k]@ == self.labels@[k]@,
            decreases self.labels@.len() - i,
        {
            labels.push(self.labels[i].clone());
            i += 1;
        }
        let r = TodoEntity {
            id: self.id,
            text: self.text.clone(),
            completed: self.completed,
            labels,
        };
        proof {
            assert(r@.labels =~= self@.labels);
        }
        r
    }
}

/// The views of a sequence of entities, in order.
pub open spec fn entity_views(es: Seq<TodoEntity>) -> Seq<EntityView> {
    es.map_values(|e: TodoEntity| e@)
}

/// The views of a sequence of join rows, in order.
pub open spec fn row_views(rs: Seq<TodoWithLabelFromRow>) -> Seq<RowView> {
    rs.map_values(|r: TodoWithLabelFromRow| r@)
}

/// A join result is well shaped when a row carries either both label
/// fields or neither, and only the first row of a todo may come
/// without a label (a todo with no labels yields exactly one row).
pub open spec fn rows_wf(rows: Seq<RowView>) -> bool {
    &&& forall|i: int|
        0 <= i < rows.len() ==> ((#[trigger] rows[i]).label_id is Some <==> rows[i].label_name
            is Some)
    &&& forall|i: int, j: int|
        0 <= i < j < rows.len() && (#[trigger] rows[i]).id == (#[trigger] rows[j]).id
            ==> rows[j].label_id is Some
}

/// The label a join row carries.
pub open spec fn row_label(r: RowView) -> LabelView
    recommends
        r.label_id is Some,
        r.label_name is Some,
{
    LabelView { id: r.label_id->0, name: r.label_name->0 }
}

/// The entity a row starts: the row's todo fields, with a one-label
/// list when the row carries a label and an empty one otherwise.
pub open spec fn entity_of_row(r: RowView) -> EntityView {
    EntityView {
        id: r.id,
        text: r.text,
        completed: r.completed,
        labels: if r.label_id is Some {
            seq![row_label(r)]
        } else {
            Seq::<LabelView>::empty()
        },
    }
}

/// Whether the accumulator already holds an entity for the given id.
pub open spec fn has_entity(acc: Seq<EntityView>, id: int) -> bool {
    exists|i: int| 0 <= i < acc.len() && acc[i].id == id
}

/// The position of the entity with the given id (any witness; the
/// fold keeps accumulator ids distinct, so it is determined there).
pub open spec fn entity_index(acc: Seq<EntityView>, id: int) -> int {
    choose|i: int| 0 <= i < acc.len() && acc[i].id == id
}

/// The entity with one more label appended.
pub open spec fn with_label(e: EntityView, l: LabelView) -> EntityView {
    EntityView { id: e.id, text: e.text, completed: e.completed, labels: e.labels.push(l) }
}

/// Folding one row into the accumulator: a row of a known todo adds
/// its label to that entity, any other row starts a new entity at the
/// end.
pub open spec fn fold_step(acc: Seq<EntityView>, r: RowView) -> Seq<EntityView> {
    if has_entity(acc, r.id) {
        let i = entity_index(acc, r.id);
        acc.update(i, with_label(acc[i], row_label(r)))
    } else {
        acc.push(entity_of_row(r))
    }
}

/// Folding a whole join result, row by row, in order.
pub open spec fn fold_rows(rows: Seq<RowView>) -> Seq<EntityView>
    decreases rows.len(),
{
    if rows.len() == 0 {
        Seq::empty()
    } else {
        fold_step(fold_rows(rows.drop_last()), rows.last())
    }
}

/// Whether some row carries the given todo id.
pub open spec fn has_row_id(rows: Seq<RowView>, id: int) -> bool {
    exists|i: int| 0 <= i < rows.len() && rows[i].id == id
}

/// The fold keeps entity ids pairwise distinct, and holds an entity
/// for an id exactly when some row carries it.
proof fn lemma_fold_rows_ids(rows: Seq<RowView>)
    ensures
        forall|a: int, b: int|
            0 <= a < b < fold_rows(rows).len() ==> fold_rows(rows)[a].id != fold_rows(rows)[b].id,
        forall|id: int| has_entity(fold_rows(rows), id) <==> has_row_id(rows, id),
    decreases rows.len(),
{
    if rows.len() == 0 {
    } else {
        let prefix = rows.drop_last();
        lemma_fold_rows_ids(prefix);
        let acc = fold_rows(prefix);
        let r = rows.last();
        let out = fold_rows(rows);
        assert(out == fold_step(acc, r));
        if has_entity(acc, r.id) {
            let i = entity_index(acc, r.id);
            assert(0 <= i < acc.len() && acc[i].id == r.id);
            assert(forall|k: int| 0 <= k < out.len() ==> out[k].id == acc[k].id);
        } else {
            assert(forall|k: int| 0 <= k < acc.len() ==> out[k] == acc[k]);
            assert(out[acc.len() as int] == entity_of_row(r));
        }
        assert forall|id: int| has_entity(out, id) <==> has_row_id(rows, id) by {
            if has_entity(out, id) {
                let k = choose|k: int| 0 <= k < out.len() && out[k].id == id;
                if k < acc.len() {
                    assert(acc[k].id == id);
                    assert(has_row_id(prefix, id));
                    let m = choose|m: int| 0 <= m < prefix.len() && prefix[m].id == id;
                    assert(rows[m].id == id);
                } else {
                    assert(rows[rows.len() - 1].id == id);
                }
            }
            if has_row_id(rows, id) {
                let m = choose|m: int| 0 <= m < rows.len() && rows[m].id == id;
                if m < prefix.len() {
                    assert(prefix[m].id == id);
                    assert(has_row_id(prefix, id));
                    assert(has_entity(acc, id));
                    let k = choose|k: int| 0 <= k < acc.len() && acc[k].id == id;
                    assert(out[k].id == id);
                } else {
                    assert(r.id == id);
                    if has_entity(acc, id) {
                        let k = entity_index(acc, id);
                        assert(out[k].id == id);
                    } else {
                        assert(out[acc.len() as int].id == id);
                    }
                }
            }
        }
    }
}

/// Rebuilds nested entities from a flattened left-outer-join result:
/// distinct todo ids appear in first-seen order, and each entity's
/// labels appear in the order of its rows.
pub fn fold_entities(rows: Vec<TodoWithLabelFromRow>) -> (r: Vec<TodoEntity>)
    requires
        rows_wf(row_views(rows@)),
    ensures
        entity_views(r@) == fold_rows(row_views(rows@)),
{
    let ghost srows = row_views(rows@);
    let mut accum: Vec<TodoEntity> = Vec::new();
    let mut i: usize = 0;
    while i < rows.len()
        invariant
            rows_wf(srows),
            srows == row_views(rows@),
            i <= rows@.len(),
            entity_views(accum@) == fold_rows(srows.take(i as int)),
        decreases rows@.len() - i,
    {
        let ghost pre_acc = entity_views(accum@);
        let ghost rv = srows[i as int];
        proof {
            lemma_fold_rows_ids(srows.take(i as int));
            assert(srows.take(i as int + 1).drop_last() =~= srows.take(i as int));
            assert(srows.take(i as int + 1).last() == rv);
        }
        let row = &rows[i];
        proof {
            assert(row@ == rv);
        }
        let label: Option<Label> = match (row.label_id, &row.label_name) {
            (Some(lid), Some(n)) => Some(Label { id: lid, name: n.clone() }),
            _ => None,
        };
        proof {
            assert(rv.label_id is Some <==> rv.label_name is Some);
            assert(label is Some <==> rv.label_id is Some);
            assert(label matches Some(l) ==> l@ == row_label(rv));
        }
        let mut j: usize = 0;
        let mut pos: Option<usize> = None;
        while j < accum.len()
            invariant
                j <= accum@.len(),
                row@ == rv,
                pre_acc == entity_views(accum@),
                pos is None ==> forall|m: int| 0 <= m < j ==> pre_acc[m].id != rv.id,
                pos matches Some(p) ==> p < accum@.len() && pre_acc[p as int].id == rv.id,
            decreases accum@.len() - j,
        {
            proof {
                assert(pre_acc[j as int] == accum@[j as int]@);
            }
            if accum[j].id == row.id {
                pos = Some(j);
            }
            j += 1;
        }
        match pos {
            Some(p) => {
                proof {
                    assert(has_entity(pre_acc, rv.id));
                    assert(has_row_id(srows.take(i as int), rv.id));
                    let k = choose|k: int|
                        0 <= k < srows.take(i as int).len() && srows.take(i as int)[k].id == rv.id;
                    assert(srows[k].id == srows[i as int].id);
                    assert(rv.label_id is Some);
                }
                let l = label.unwrap();
                let ghost pre_vec = accum@;
                let mut e = accum.remove(p);
                e.labels.push(l);
                accum.insert(p, e);
                proof {
                    let idx = entity_index(pre_acc, rv.id);
                    assert(0 <= idx < pre_acc.len() && pre_acc[idx].id == rv.id);
                    assert(idx == p as int);
                    assert(pre_acc[p as int] == pre_vec[p as int]@);
                    assert(accum@[p as int]@ =~= with_label(pre_acc[idx], row_label(rv)));
                    assert(entity_views(accum@) =~= pre_acc.update(
                        idx,
                        with_label(pre_acc[idx], row_label(rv)),
                    ));
                    assert(entity_views(accum@) == fold_step(pre_acc, rv));
                    assert(fold_rows(srows.take(i as int + 1)) == fold_step(pre_acc, rv));
                }
            },
            None => {
                proof {
                    assert(!has_entity(pre_acc, rv.id));
                }
                let labels: Vec<Label> = match label {
                    Some(l) => {
                        let mut v: Vec<Label> = Vec::new();
                        v.push(l);
                        v
                    },
                    None => Vec::new(),
                };
                let e = TodoEntity {
                    id: row.id,
                    text: row.text.clone(),
                    completed: row.completed,
                    labels,
                };
                accum.push(e);
                proof {
                    assert(e@.labels =~= entity_of_row(rv).labels);
                    assert(e@ == entity_of_row(rv));
                    assert(entity_views(accum@) =~= pre_acc.push(entity_of_row(rv)));
                    assert(entity_views(accum@) == fold_step(pre_acc, rv));
                    assert(fold_rows(srows.take(i as int + 1)) == fold_step(pre_acc, rv));
                }
            },
        }
        i += 1;
    }
    proof {
        assert(srows.take(rows@.len() as int) =~= srows);
    }
    accum
}

/// Mathematical image of a labeled create payload.
pub ghost struct CreateTodoView {
    pub text: Seq<char>,
    pub labels: Seq<int>,
}

/// Payload for creating a labeled todo: the task text and the ids of
/// the labels to associate with it.
#[derive(Debug, PartialEq, Eq)]
pub struct CreateTodo {
    text: String,
    labels: Vec<i32>,
}

impl View for CreateTodo {
    type V = CreateTodoView;

    closed spec fn view(&self) -> CreateTodoView {
        CreateTodoView { text: self.text@, labels: self.labels@.map_values(|l: i32| l as int) }
    }
}

impl CreateTodo {
    pub fn new(text: String, labels: Vec<i32>) -> (r: Self)
        ensures
            r@.text == text@,
            r@.labels == labels@.map_values(|l: i32| l as int),
    {
        CreateTodo { text, labels }
    }
}

/// Mathematical image of a labeled update payload.
pub ghost struct UpdateTodoView {
    pub text: Option<Seq<char>>,
    pub completed: Option<bool>,
    pub labels: Option<Seq<int>>,
}

/// Payload for updating a labeled todo; absent fields keep the stored
/// values, and a present `labels` replaces the whole association set.
#[derive(Debug, PartialEq, Eq)]
pub struct UpdateTodo {
    text: Option<String>,
    completed: Option<bool>,
    labels: Option<Vec<i32>>,
}

impl View for UpdateTodo {
    type V = UpdateTodoView;

    closed spec fn view(&self) -> UpdateTodoView {
        UpdateTodoView {
            text: match self.text {
                Some(t) => Some(t@),
                None => None,
            },
            completed: self.completed,
            labels: match self.labels {
                Some(l) => Some(l@.map_values(|x: i32| x as int)),
                None => None,
            },
        }
    }
}

impl UpdateTodo {
    pub fn new(text: Option<String>, completed: Option<bool>, labels: Option<Vec<i32>>) -> (r:
        Self)
        ensures
            r@.text == (match text {
                Some(t) => Some(t@),
                None => None::<Seq<char>>,
            }),
            r@.completed == completed,
            r@.labels == (match labels {
                Some(l) => Some(l@.map_values(|x: i32| x as int)),
                None => None::<Seq<int>>,
            }),
    {
        UpdateTodo { text, completed, labels }
    }
}

/// Whether some todo row carries the given id.
pub open spec fn has_todo_id(todos: Seq<TodoView>, id: int) -> bool {
    exists|i: int| 0 <= i < todos.len() && todos[i].id == id
}

/// The position of the todo row with the given id (any witness; ids
/// are unique in a well-formed store, so it is determined there).
pub open spec fn todo_index_of(todos: Seq<TodoView>, id: int) -> int {
    choose|i: int| 0 <= i < todos.len() && todos[i].id == id
}

/// The todo row with the given id.
pub open spec fn todo_of_id(todos: Seq<TodoView>, id: int) -> TodoView {
    todos[todo_index_of(todos, id)]
}

/// Mathematical image of the whole relational store: the three tables
/// and the two counters the store assigns fresh ids from.
#[verifier::ext_equal]
pub ghost struct TablesView {
    pub todos: Seq<TodoView>,
    pub labels: Seq<LabelView>,
    pub todo_labels: Seq<(int, int)>,
    pub next_todo_id: int,
    pub next_label_id: int,
}

/// The store's standing shape: ids ascend (hence are unique) and stay
/// below their counter, label names are unique, association pairs are
/// unique and always point at an existing todo. An association may
/// point at a deleted label, since label deletion does not cascade.
pub open spec fn tables_wf(t: TablesView) -> bool {
    &&& 1 <= t.next_todo_id <= i32::MAX
    &&& 1 <= t.next_label_id <= i32::MAX
    &&& forall|i: int, j: int|
        0 <= i < j < t.todos.len() ==> (#[trigger] t.todos[i]).id < (#[trigger] t.todos[j]).id
    &&& forall|i: int| 0 <= i < t.todos.len() ==> 1 <= (#[trigger] t.todos[i]).id < t.next_todo_id
    &&& forall|i: int, j: int|
        0 <= i < j < t.labels.len() ==> (#[trigger] t.labels[i]).id < (#[trigger] t.labels[j]).id
    &&& forall|i: int|
        0 <= i < t.labels.len() ==> 1 <= (#[trigger] t.labels[i]).id < t.next_label_id
    &&& forall|i: int, j: int|
        0 <= i < j < t.labels.len() ==> (#[trigger] t.labels[i]).name != (
        #[trigger] t.labels[j]).name
    &&& forall|i: int, j: int|
        0 <= i < j < t.todo_labels.len() ==> (#[trigger] t.todo_labels[i]) != (
        #[trigger] t.todo_labels[j])
    &&& forall|i: int|
        0 <= i < t.todo_labels.len() ==> has_todo_id(t.todos, (#[trigger] t.todo_labels[i]).0)
}

/// Keeping the association pairs of the given todo whose label still
/// exists.
pub open spec fn assoc_pred(labels: Seq<LabelView>, todo_id: int) -> spec_fn((int, int)) -> bool {
    |p: (int, int)| p.0 == todo_id && has_label_id(labels, p.1)
}

/// Reading the label a pair points at.
pub open spec fn assoc_label_fn(labels: Seq<LabelView>) -> spec_fn((int, int)) -> LabelView {
    |p: (int, int)| label_of_id(labels, p.1)
}

/// Keeping the association pairs of every other todo.
pub open spec fn keeps_others(todo_id: int) -> spec_fn((int, int)) -> bool {
    |p: (int, int)| p.0 != todo_id
}

/// Turning a label id into an association pair for the given todo.
pub open spec fn pair_of_label(todo_id: int) -> spec_fn(int) -> (int, int) {
    |l: int| (todo_id, l)
}

/// The labels currently associated with a todo, in association order,
/// skipping associations whose label has been deleted.
pub open spec fn assoc_labels(t: TablesView, todo_id: int) -> Seq<LabelView> {
    t.todo_labels.filter(assoc_pred(t.labels, todo_id)).map_values(assoc_label_fn(t.labels))
}

/// The hydrated entity for a stored todo id.
pub open spec fn entity_of(t: TablesView, id: int) -> EntityView {
    EntityView {
        id,
        text: todo_of_id(t.todos, id).text,
        completed: todo_of_id(t.todos, id).completed,
        labels: assoc_labels(t, id),
    }
}

/// Every entity, newest (highest id) first.
pub open spec fn entities_desc(t: TablesView) -> Seq<EntityView> {
    Seq::new(t.todos.len(), |i: int| entity_of(t, t.todos[t.todos.len() - 1 - i].id))
}

/// Whether a list of label ids can be written as an association set:
/// every id names an existing label, and no id repeats.
pub open spec fn label_ids_ok(t: TablesView, ids: Seq<int>) -> bool {
    &&& forall|k: int| 0 <= k < ids.len() ==> has_label_id(t.labels, #[trigger] ids[k])
    &&& forall|k: int, l: int| 0 <= k < l < ids.len() ==> ids[k] != ids[l]
}

/// When a create succeeds: the id counter has room and the requested
/// label ids can be associated.
pub open spec fn create_ok(t: TablesView, payload: CreateTodoView) -> bool {
    &&& t.next_todo_id < i32::MAX
    &&& label_ids_ok(t, payload.labels)
}

/// The store after a successful create: one new todo row under the
/// fresh id, not completed, and one association per requested label.
pub open spec fn spec_create(t: TablesView, payload: CreateTodoView) -> TablesView {
    TablesView {
        todos: t.todos.push(
            TodoView { id: t.next_todo_id, text: payload.text, completed: false },
        ),
        labels: t.labels,
        todo_labels: t.todo_labels + payload.labels.map_values(pair_of_label(t.next_todo_id)),
        next_todo_id: t.next_todo_id + 1,
        next_label_id: t.next_label_id,
    }
}

/// The row an update leaves behind: fields present in the payload
/// replace the stored values, absent ones keep them.
pub open spec fn merged_row(row: TodoView, payload: UpdateTodoView) -> TodoView {
    TodoView {
        id: row.id,
        text: match payload.text {
            Some(s) => s,
            None => row.text,
        },
        completed: match payload.completed {
            Some(c) => c,
            None => row.completed,
        },
    }
}

/// When an update succeeds: the todo exists, and a present label list
/// can be written as the new association set.
pub open spec fn update_ok(t: TablesView, id: int, payload: UpdateTodoView) -> bool {
    &&& has_todo_id(t.todos, id)
    &&& (payload.labels matches Some(ls) ==> label_ids_ok(t, ls))
}

/// The store after a successful update: the row rewritten in place;
/// when the payload carries labels, the todo's whole association set
/// replaced by the new list.
pub open spec fn spec_update(t: TablesView, id: int, payload: UpdateTodoView) -> TablesView {
    let i = todo_index_of(t.todos, id);
    TablesView {
        todos: t.todos.update(i, merged_row(t.todos[i], payload)),
        labels: t.labels,
        todo_labels: match payload.labels {
            Some(ls) => t.todo_labels.filter(keeps_others(id)) + ls.map_values(pair_of_label(id)),
            None => t.todo_labels,
        },
        next_todo_id: t.next_todo_id,
        next_label_id: t.next_label_id,
    }
}

/// The store after a successful delete: the todo row gone together
/// with every association that pointed at it.
pub open spec fn spec_delete(t: TablesView, id: int) -> TablesView {
    TablesView {
        todos: t.todos.remove(todo_index_of(t.todos, id)),
        labels: t.labels,
        todo_labels: t.todo_labels.filter(keeps_others(id)),
        next_todo_id: t.next_todo_id,
        next_label_id: t.next_label_id,
    }
}

/// The store after a successful label create: one new label row under
/// the fresh id.
pub open spec fn spec_create_label(t: TablesView, name: Seq<char>) -> TablesView {
    TablesView {
        todos: t.todos,
        labels: t.labels.push(LabelView { id: t.next_label_id, name }),
        todo_labels: t.todo_labels,
        next_todo_id: t.next_todo_id,
        next_label_id: t.next_label_id + 1,
    }
}

/// The store after a successful label delete: the label row gone, its
/// associations left dangling by design.
pub open spec fn spec_delete_label(t: TablesView, id: int) -> TablesView {
    TablesView {
        todos: t.todos,
        labels: remove_label(t.labels, id),
        todo_labels: t.todo_labels,
        next_todo_id: t.next_todo_id,
        next_label_id: t.next_label_id,
    }
}

/// Filtering after one appended element keeps the element exactly
/// when it satisfies the predicate.
proof fn lemma_filter_push<A>(s: Seq<A>, x: A, pred: spec_fn(A) -> bool)
    ensures
        s.push(x).filter(pred) == if pred(x) {
            s.filter(pred).push(x)
        } else {
            s.filter(pred)
        },
{
    reveal(Seq::filter);
    assert(s.push(x).drop_last() =~= s);
    assert(s.push(x).last() == x);
    assert(s.push(x).len() == s.len() + 1);
}

/// Every element of a filtered sequence occurs in the unfiltered one.
proof fn lemma_filter_elems<A>(s: Seq<A>, pred: spec_fn(A) -> bool)
    ensures
        forall|i: int|
            0 <= i < s.filter(pred).len() ==> exists|j: int|
                0 <= j < s.len() && s[j] == #[trigger] s.filter(pred)[i],
    decreases s.len(),
{
    if s.len() == 0 {
    } else {
        let prefix = s.drop_last();
        lemma_filter_elems(prefix, pred);
        lemma_filter_push(prefix, s.last(), pred);
        assert(prefix.push(s.last()) =~= s);
        assert forall|i: int| 0 <= i < s.filter(pred).len() implies exists|j: int|
            0 <= j < s.len() && s[j] == #[trigger] s.filter(pred)[i] by {
            if i < prefix.filter(pred).len() {
                assert(s.filter(pred)[i] == prefix.filter(pred)[i]);
                let j = choose|j: int|
                    0 <= j < prefix.len() && prefix[j] == prefix.filter(pred)[i];
                assert(s[j] == s.filter(pred)[i]);
            } else {
                assert(s.filter(pred)[i] == s.last());
                assert(s[s.len() - 1] == s.filter(pred)[i]);
            }
        }
    }
}

/// Filtering keeps a sequence whose elements all satisfy the
/// predicate unchanged.
proof fn lemma_filter_all<A>(s: Seq<A>, pred: spec_fn(A) -> bool)
    requires
        forall|i: int| 0 <= i < s.len() ==> pred(#[trigger] s[i]),
    ensures
        s.filter(pred) == s,
    decreases s.len(),
{
    reveal(Seq::filter);
    if s.len() == 0 {
        assert(s.filter(pred) =~= s);
    } else {
        let prefix = s.drop_last();
        lemma_filter_all(prefix, pred);
        lemma_filter_push(prefix, s.last(), pred);
        assert(prefix.push(s.last()) =~= s);
        assert(pred(s[s.len() - 1]));
        assert(prefix.push(s.last()).filter(pred) =~= s);
    }
}

/// Filtering out exactly one element is removal at its position.
proof fn lemma_filter_out_unique<A>(s: Seq<A>, i: int, pred: spec_fn(A) -> bool)
    requires
        0 <= i < s.len(),
        !pred(s[i]),
        forall|j: int| 0 <= j < s.len() && j != i ==> pred(#[trigger] s[j]),
    ensures
        s.filter(pred) == s.remove(i),
    decreases s.len(),
{
    let prefix = s.drop_last();
    assert(prefix.push(s.last()) =~= s);
    lemma_filter_push(prefix, s.last(), pred);
    if i == s.len() - 1 {
        lemma_filter_all(prefix, pred);
        assert(s.remove(i) =~= prefix);
        assert(s.filter(pred) =~= s.remove(i));
    } else {
        lemma_filter_out_unique(prefix, i, pred);
        assert(s.remove(i) =~= prefix.remove(i).push(s.last()));
        assert(s.filter(pred) =~= s.remove(i));
    }
}

/// A filtered sequence of pairwise distinct elements is itself
/// pairwise distinct.
proof fn lemma_filter_distinct<A>(s: Seq<A>, pred: spec_fn(A) -> bool)
    requires
        forall|a: int, b: int| 0 <= a < b < s.len() ==> s[a] != s[b],
    ensures
        forall|a: int, b: int|
            0 <= a < b < s.filter(pred).len() ==> s.filter(pred)[a] != s.filter(pred)[b],
    decreases s.len(),
{
    if s.len() == 0 {
    } else {
        let prefix = s.drop_last();
        lemma_filter_distinct(prefix, pred);
        lemma_filter_elems(prefix, pred);
        lemma_filter_push(prefix, s.last(), pred);
        assert(prefix.push(s.last()) =~= s);
        if pred(s.last()) {
            assert forall|a: int, b: int|
                0 <= a < b < s.filter(pred).len() implies s.filter(pred)[a] != s.filter(
                pred,
            )[b] by {
                if b == s.filter(pred).len() - 1 {
                    assert(s.filter(pred)[b] == s.last());
                    assert(s.filter(pred)[a] == prefix.filter(pred)[a]);
                    let j = choose|j: int|
                        0 <= j < prefix.len() && prefix[j] == prefix.filter(pred)[a];
                    assert(s[j] == s.filter(pred)[a]);
                    assert(s[j] != s[s.len() - 1]);
                } else {
                    assert(s.filter(pred)[a] == prefix.filter(pred)[a]);
                    assert(s.filter(pred)[b] == prefix.filter(pred)[b]);
                }
            }
        }
    }
}

/// The id list as mathematical integers.
pub open spec fn int_ids(ids: Seq<i32>) -> Seq<int> {
    ids.map_values(|l: i32| l as int)
}

/// The labeled-todo operation set every backend offers, stated over
/// the table image `tables()`. Every operation that touches more than
/// one table acts as one atomic unit: on any failure the store is
/// left exactly as it was.
pub trait TodoRepository: Sized {
    spec fn wf(&self) -> bool;

    spec fn tables(&self) -> TablesView;

    /// Inserts a todo under the store's next id, not completed, with
    /// one association per requested label, and returns the hydrated
    /// entity. Fails with `Unexpected` when a requested label id does
    /// not exist or repeats, or when the id space is exhausted; the
    /// store is then unchanged.
    fn create(&mut self, payload: CreateTodo) -> (r: Result<TodoEntity, RepositoryError>)
        requires
            old(self).wf(),
        ensures
            final(self).wf(),
            r is Ok <==> create_ok(old(self).tables(), payload@),
            r matches Ok(e) ==> {
                &&& final(self).tables() == spec_create(old(self).tables(), payload@)
                &&& e@ == entity_of(final(self).tables(), old(self).tables().next_todo_id)
            },
            r matches Err(err) ==> {
                &&& final(self).tables() == old(self).tables()
                &&& err matches RepositoryError::Unexpected(_)
            },
    ;

    /// Returns the hydrated entity with the given id, or `NotFound`.
    fn find(&self, id: i32) -> (r: Result<TodoEntity, RepositoryError>)
        requires
            self.wf(),
        ensures
            r is Ok <==> has_todo_id(self.tables().todos, id as int),
            r matches Ok(e) ==> e@ == entity_of(self.tables(), id as int),
            r matches Err(err) ==> err == RepositoryError::NotFound(id),
    ;

    /// Returns every hydrated entity, newest first.
    fn all(&self) -> (r: Result<Vec<TodoEntity>, RepositoryError>)
        requires
            self.wf(),
        ensures
            r is Ok,
            r matches Ok(es) ==> entity_views(es@) == entities_desc(self.tables()),
    ;

    /// Rewrites the todo's mutable fields, keeping stored values for
    /// fields the payload leaves out; a present label list replaces
    /// the todo's whole association set. Fails with `NotFound` when
    /// the id is absent and with `Unexpected` when a requested label
    /// id does not exist or repeats; the store is then unchanged.
    fn update(&mut self, id: i32, payload: UpdateTodo) -> (r: Result<
        TodoEntity,
        RepositoryError,
    >)
        requires
            old(self).wf(),
        ensures
            final(self).wf(),
            r is Ok <==> update_ok(old(self).tables(), id as int, payload@),
            r matches Ok(e) ==> {
                &&& final(self).tables() == spec_update(old(self).tables(), id as int, payload@)
                &&& e@ == entity_of(final(self).tables(), id as int)
            },
            r matches Err(err) ==> {
                &&& final(self).tables() == old(self).tables()
                &&& !has_todo_id(old(self).tables().todos, id as int) ==> err
                    == RepositoryError::NotFound(id)
                &&& has_todo_id(old(self).tables().todos, id as int) ==> err matches
                    RepositoryError::Unexpected(_)
            },
    ;

    /// Removes the todo row together with every association that
    /// points at it, as one unit. Fails with `NotFound` when the id
    /// is absent; the store is then unchanged.
    fn delete(&mut self, id: i32) -> (r: Result<(), RepositoryError>)
        requires
            old(self).wf(),
        ensures
            final(self).wf(),
            r is Ok <==> has_todo_id(old(self).tables().todos, id as int),
            r is Ok ==> final(self).tables() == spec_delete(old(self).tables(), id as int),
            r matches Err(err) ==> err == RepositoryError::NotFound(id) && final(self).tables()
                == old(self).tables(),
    ;
}

/// Filtering a sequence none of whose elements satisfy the predicate
/// leaves nothing.
proof fn lemma_filter_none<A>(s: Seq<A>, pred: spec_fn(A) -> bool)
    requires
        forall|i: int| 0 <= i < s.len() ==> !pred(#[trigger] s[i]),
    ensures
        s.filter(pred) == Seq::<A>::empty(),
    decreases s.len(),
{
    reveal(Seq::filter);
    if s.len() == 0 {
        assert(s.filter(pred) =~= Seq::<A>::empty());
    } else {
        let prefix = s.drop_last();
        lemma_filter_none(prefix, pred);
        lemma_filter_push(prefix, s.last(), pred);
        assert(prefix.push(s.last()) =~= s);
        assert(!pred(s[s.len() - 1]));
    }
}

/// Reading a label by id from a label table.
pub open spec fn label_from_fn(labels: Seq<LabelView>) -> spec_fn(int) -> LabelView {
    |l: int| label_of_id(labels, l)
}

/// The labels a list of ids names, in list order.
pub open spec fn labels_of_ids(labels: Seq<LabelView>, ids: Seq<int>) -> Seq<LabelView> {
    ids.map_values(label_from_fn(labels))
}

/// Law: after a successful create, finding the fresh id yields an
/// entity whose labels are exactly the labels the payload named, in
/// payload order — so in particular the two agree as sets.
pub proof fn lemma_create_then_find(t: TablesView, payload: CreateTodoView)
    requires
        tables_wf(t),
        create_ok(t, payload),
    ensures
        has_todo_id(spec_create(t, payload).todos, t.next_todo_id),
        entity_of(spec_create(t, payload), t.next_todo_id).labels == labels_of_ids(
            t.labels,
            payload.labels,
        ),
        entity_of(spec_create(t, payload), t.next_todo_id).labels.to_set() == labels_of_ids(
            t.labels,
            payload.labels,
        ).to_set(),
{
    let id = t.next_todo_id;
    let t2 = spec_create(t, payload);
    let pairs = payload.labels.map_values(pair_of_label(id));
    assert(t2.todos[t.todos.len() as int].id == id);
    let pred = assoc_pred(t2.labels, id);
    Seq::filter_distributes_over_add(t.todo_labels, pairs, pred);
    assert forall|m: int| 0 <= m < t.todo_labels.len() implies !pred(
        #[trigger] t.todo_labels[m],
    ) by {
        assert(has_todo_id(t.todos, t.todo_labels[m].0));
        let w = choose|w: int| 0 <= w < t.todos.len() && t.todos[w].id == t.todo_labels[m].0;
        assert(0 <= w < t.todos.len() && t.todos[w].id == t.todo_labels[m].0);
        assert(t.todos[w].id < t.next_todo_id);
    }
    lemma_filter_none(t.todo_labels, pred);
    assert forall|m: int| 0 <= m < pairs.len() implies pred(#[trigger] pairs[m]) by {
        assert(pairs[m] == pair_of_label(id)(payload.labels[m]));
        assert(has_label_id(t.labels, payload.labels[m]));
    }
    lemma_filter_all(pairs, pred);
    assert(t2.todo_labels =~= t.todo_labels + pairs);
    assert(t2.todo_labels.filter(pred) == Seq::<(int, int)>::empty() + pairs);
    assert(Seq::<(int, int)>::empty() + pairs =~= pairs);
    assert(assoc_labels(t2, id) == pairs.map_values(assoc_label_fn(t2.labels)));
    assert(entity_of(t2, id).labels =~= labels_of_ids(t.labels, payload.labels));
}

/// Law: an update whose payload leaves every field absent is a no-op:
/// the store, and so any find before and after, is unchanged.
pub proof fn lemma_update_noop(t: TablesView, id: int)
    requires
        tables_wf(t),
        has_todo_id(t.todos, id),
    ensures
        update_ok(t, id, (UpdateTodoView { text: None, completed: None, labels: None })),
        spec_update(t, id, (UpdateTodoView { text: None, completed: None, labels: None })) == t,
{
    let payload = UpdateTodoView { text: None, completed: None, labels: None };
    let i = todo_index_of(t.todos, id);
    assert(0 <= i < t.todos.len() && t.todos[i].id == id);
    assert(merged_row(t.todos[i], payload) == t.todos[i]);
    assert(t.todos.update(i, t.todos[i]) =~= t.todos);
    assert(spec_update(t, id, payload) =~= t);
}

/// Law: an update whose payload carries an empty label list clears
/// every association of the todo: a subsequent find yields no labels.
pub proof fn lemma_update_clears_labels(t: TablesView, id: int)
    requires
        tables_wf(t),
        has_todo_id(t.todos, id),
    ensures
        update_ok(t, id, (UpdateTodoView { text: None, completed: None, labels: Some(Seq::empty()) })),
        entity_of(
            spec_update(
                t,
                id,
                (UpdateTodoView { text: None, completed: None, labels: Some(Seq::empty()) }),
            ),
            id,
        ).labels == Seq::<LabelView>::empty(),
{
    let payload = UpdateTodoView { text: None, completed: None, labels: Some(Seq::empty()) };
    let t2 = spec_update(t, id, payload);
    let kept = t.todo_labels.filter(keeps_others(id));
    assert(Seq::<int>::empty().map_values(pair_of_label(id)) =~= Seq::<(int, int)>::empty());
    assert(t2.todo_labels =~= kept);
    let pred = assoc_pred(t2.labels, id);
    assert forall|m: int| 0 <= m < kept.len() implies !pred(#[trigger] kept[m]) by {
        t.todo_labels.lemma_filter_pred(keeps_others(id), m);
    }
    lemma_filter_none(kept, pred);
    assert(entity_of(t2, id).labels =~= Seq::<LabelView>::empty());
}

/// Law: after a delete, the todo id is gone and no association row
/// references it any more.
pub proof fn lemma_delete_removes(t: TablesView, id: int)
    requires
        tables_wf(t),
        has_todo_id(t.todos, id),
    ensures
        !has_todo_id(spec_delete(t, id).todos, id),
        forall|m: int|
            0 <= m < spec_delete(t, id).todo_labels.len() ==> (#[trigger] spec_delete(
                t,
                id,
            ).todo_labels[m]).0 != id,
{
    let i = todo_index_of(t.todos, id);
    assert(0 <= i < t.todos.len() && t.todos[i].id == id);
    let t2 = spec_delete(t, id);
    assert forall|w: int| 0 <= w < t2.todos.len() implies (#[trigger] t2.todos[w]).id != id by {
        let w0 = if w < i {
            w
        } else {
            w + 1
        };
        assert(t2.todos[w] == t.todos[w0]);
        if w0 < i {
            assert(t.todos[w0].id < t.todos[i].id);
        } else {
            assert(t.todos[i].id < t.todos[w0].id);
        }
    }
    assert forall|m: int| 0 <= m < t2.todo_labels.len() implies (
    #[trigger] t2.todo_labels[m]).0 != id by {
        t.todo_labels.lemma_filter_pred(keeps_others(id), m);
    }
}

/// The relational store, modeled at the level the statements act on:
/// three in-process tables and the two id counters.
#[derive(Debug)]
pub struct TableStore {
    todos: Vec<TodoFromRow>,
    labels: Vec<Label>,
    todo_labels: Vec<(i32, i32)>,
    next_todo_id: i32,
    next_label_id: i32,
}

impl View for TableStore {
    type V = TablesView;

    closed spec fn view(&self) -> TablesView {
        TablesView {
            todos: self.todos@.map_values(|r: TodoFromRow| r@),
            labels: self.labels@.map_values(|l: Label| l@),
            todo_labels: self.todo_labels@.map_values(|p: (i32, i32)| (p.0 as int, p.1 as int)),
            next_todo_id: self.next_todo_id as int,
            next_label_id: self.next_label_id as int,
        }
    }
}

impl TableStore {
    /// An empty store; ids start at 1.
    pub fn new() -> (r: Self)
        ensures
            tables_wf(r@),
            r@ == (TablesView {
                todos: Seq::<TodoView>::empty(),
                labels: Seq::<LabelView>::empty(),
                todo_labels: Seq::<(int, int)>::empty(),
                next_todo_id: 1,
                next_label_id: 1,
            }),
    {
        let r = TableStore {
            todos: Vec::new(),
            labels: Vec::new(),
            todo_labels: Vec::new(),
            next_todo_id: 1,
            next_label_id: 1,
        };
        proof {
            assert(r@.todos =~= Seq::<TodoView>::empty());
            assert(r@.labels =~= Seq::<LabelView>::empty());
            assert(r@.todo_labels =~= Seq::<(int, int)>::empty());
        }
        r
    }

    /// Scans the todos table for the row with the given id.
    fn todo_position(&self, id: i32) -> (r: Option<usize>)
        requires
            tables_wf(self@),
        ensures
            r is Some <==> has_todo_id(self@.todos, id as int),
            r matches Some(i) ==> i < self@.todos.len() && self@.todos[i as int].id == id as int
                && i as int == todo_index_of(self@.todos, id as int),
    {
        let mut i: usize = 0;
        while i < self.todos.len()
            invariant
                tables_wf(self@),
                i <= self@.todos.len(),
                forall|k: int| 0 <= k < i ==> self@.todos[k].id != id as int,
            decreases self@.todos.len() - i,
        {
            if self.todos[i].id == id {
                proof {
                    assert(self@.todos[i as int].id == id as int);
                    assert(has_todo_id(self@.todos, id as int));
                    let j = todo_index_of(self@.todos, id as int);
                    assert(0 <= j < self@.todos.len() && self@.todos[j].id == id as int);
                    assert(j == i as int);
                }
                return Some(i);
            }
            i += 1;
        }
        None
    }

    /// Scans the labels table for the row with the given id.
    fn label_position(&self, id: i32) -> (r: Option<usize>)
        requires
            tables_wf(self@),
        ensures
            r is Some <==> has_label_id(self@.labels, id as int),
            r matches Some(i) ==> i < self@.labels.len() && self@.labels[i as int].id == id as int
                && self@.labels[i as int] == label_of_id(self@.labels, id as int),
    {
        let mut i: usize = 0;
        while i < self.labels.len()
            invariant
                tables_wf(self@),
                i <= self@.labels.len(),
                forall|k: int| 0 <= k < i ==> self@.labels[k].id != id as int,
            decreases self@.labels.len() - i,
        {
            if self.labels[i].id == id {
                proof {
                    assert(self@.labels[i as int].id == id as int);
                    assert(has_label_id(self@.labels, id as int));
                    let j = choose|j: int|
                        0 <= j < self@.labels.len() && self@.labels[j].id == id as int;
                    assert(j == i as int);
                }
                return Some(i);
            }
            i += 1;
        }
        None
    }

    /// Scans the labels table for the row with the given name.
    fn label_position_by_name(&self, name: &String) -> (r: Option<usize>)
        requires
            tables_wf(self@),
        ensures
            r is Some <==> has_label_name(self@.labels, name@),
            r matches Some(i) ==> i < self@.labels.len() && self@.labels[i as int].name == name@
                && self@.labels[i as int].id == label_id_of_name(self@.labels, name@),
    {
        let mut i: usize = 0;
        while i < self.labels.len()
            invariant
                tables_wf(self@),
                i <= self@.labels.len(),
                forall|k: int| 0 <= k < i ==> self@.labels[k].name != name@,
            decreases self@.labels.len() - i,
        {
            if self.labels[i].name == *name {
                proof {
                    assert(self@.labels[i as int].name == name@);
                    assert(has_label_name(self@.labels, name@));
                    let j = choose|j: int|
                        0 <= j < self@.labels.len() && self@.labels[j].name == name@;
                    assert(j == i as int);
                }
                return Some(i);
            }
            i += 1;
        }
        None
    }

    /// Collects the labels associated with a todo, in association
    /// order, skipping associations whose label has been deleted.
    fn labels_for(&self, todo_id: i32) -> (r: Vec<Label>)
        requires
            tables_wf(self@),
        ensures
            r@.map_values(|l: Label| l@) == assoc_labels(self@, todo_id as int),
    {
        let ghost t = self@;
        let ghost pred = assoc_pred(t.labels, todo_id as int);
        let ghost f = assoc_label_fn(t.labels);
        let mut out: Vec<Label> = Vec::new();
        let mut k: usize = 0;
        while k < self.todo_labels.len()
            invariant
                tables_wf(self@),
                t == self@,
                pred == assoc_pred(t.labels, todo_id as int),
                f == assoc_label_fn(t.labels),
                k <= self@.todo_labels.len(),
                out@.map_values(|l: Label| l@) == t.todo_labels.take(k as int).filter(
                    pred,
                ).map_values(f),
            decreases self@.todo_labels.len() - k,
        {
            let ghost pv = t.todo_labels[k as int];
            let ghost taken = t.todo_labels.take(k as int);
            proof {
                lemma_filter_push(taken, pv, pred);
                assert(t.todo_labels.take(k as int + 1) =~= taken.push(pv));
            }
            let p = self.todo_labels[k];
            proof {
                assert(pv == (p.0 as int, p.1 as int));
            }
            if p.0 == todo_id {
                match self.label_position(p.1) {
                    Some(j) => {
                        out.push(self.labels[j].clone());
                        proof {
                            assert(pred(pv));
                            assert(self@.labels[j as int] == label_of_id(t.labels, pv.1));
                            assert(out@.map_values(|l: Label| l@) =~= taken.filter(
                                pred,
                            ).map_values(f).push(f(pv)));
                            assert(taken.push(pv).filter(pred).map_values(f) =~= taken.filter(
                                pred,
                            ).map_values(f).push(f(pv)));
                        }
                    },
                    None => {
                        proof {
                            assert(!pred(pv));
                        }
                    },
                }
            } else {
                proof {
                    assert(!pred(pv));
                }
            }
            k += 1;
        }
        proof {
            assert(t.todo_labels.take(self@.todo_labels.len() as int) =~= t.todo_labels);
        }
        out
    }

    /// Builds the hydrated entity for the todo row at a position.
    fn entity_at(&self, i: usize) -> (e: TodoEntity)
        requires
            tables_wf(self@),
            i < self@.todos.len(),
        ensures
            e@ == entity_of(self@, self@.todos[i as int].id),
    {
        let row = &self.todos[i];
        let labels = self.labels_for(row.id);
        let e = TodoEntity {
            id: row.id,
            text: row.text.clone(),
            completed: row.completed,
            labels,
        };
        proof {
            let idv = row@.id;
            assert(self@.todos[i as int] == row@);
            assert(has_todo_id(self@.todos, idv));
            let j = todo_index_of(self@.todos, idv);
            assert(0 <= j < self@.todos.len() && self@.todos[j].id == idv);
            assert(j == i as int);
            assert(e@ =~= entity_of(self@, idv));
        }
        e
    }

    /// Checks that every id names an existing label and none repeats.
    fn check_label_ids(&self, ids: &Vec<i32>) -> (r: bool)
        requires
            tables_wf(self@),
        ensures
            r == label_ids_ok(self@, int_ids(ids@)),
    {
        let mut k: usize = 0;
        while k < ids.len()
            invariant
                tables_wf(self@),
                k <= ids@.len(),
                forall|m: int| 0 <= m < k ==> has_label_id(self@.labels, int_ids(ids@)[m]),
                forall|m: int, n: int| 0 <= m < n < k ==> int_ids(ids@)[m] != int_ids(ids@)[n],
            decreases ids@.len() - k,
        {
            if self.label_position(ids[k]).is_none() {
                proof {
                    assert(!has_label_id(self@.labels, int_ids(ids@)[k as int]));
                }
                return false;
            }
            let mut m: usize = 0;
            while m < k
                invariant
                    m <= k,
                    k < ids@.len(),
                    forall|n: int| 0 <= n < m ==> int_ids(ids@)[n] != int_ids(ids@)[k as int],
                decreases k - m,
            {
                if ids[m] == ids[k] {
                    proof {
                        assert(int_ids(ids@)[m as int] == int_ids(ids@)[k as int]);
                    }
                    return false;
                }
                m += 1;
            }
            k += 1;
        }
        true
    }

    /// Drops every association of the given todo, keeping the rest in
    /// order.
    fn retain_other_assocs(&mut self, id: i32)
        requires
            tables_wf(old(self)@),
        ensures
            tables_wf(final(self)@),
            final(self)@ == (TablesView {
                todos: old(self)@.todos,
                labels: old(self)@.labels,
                todo_labels: old(self)@.todo_labels.filter(keeps_others(id as int)),
                next_todo_id: old(self)@.next_todo_id,
                next_label_id: old(self)@.next_label_id,
            }),
    {
        let ghost t0 = self@;
        let ghost pred = keeps_others(id as int);
        let mut kept: Vec<(i32, i32)> = Vec::new();
        let mut k: usize = 0;
        while k < self.todo_labels.len()
            invariant
                t0 == self@,
                tables_wf(t0),
                pred == keeps_others(id as int),
                k <= t0.todo_labels.len(),
                kept@.map_values(|p: (i32, i32)| (p.0 as int, p.1 as int)) == t0.todo_labels.take(
                    k as int,
                ).filter(pred),
            decreases t0.todo_labels.len() - k,
        {
            let ghost pv = t0.todo_labels[k as int];
            let ghost taken = t0.todo_labels.take(k as int);
            proof {
                lemma_filter_push(taken, pv, pred);
                assert(t0.todo_labels.take(k as int + 1) =~= taken.push(pv));
            }
            let p = self.todo_labels[k];
            proof {
                assert(pv == (p.0 as int, p.1 as int));
            }
            if p.0 != id {
                kept.push(p);
                proof {
                    assert(pred(pv));
                    assert(kept@.map_values(|p: (i32, i32)| (p.0 as int, p.1 as int)) =~= taken
                        .filter(pred).push(pv));
                }
            } else {
                proof {
                    assert(!pred(pv));
                }
            }
            k += 1;
        }
        self.todo_labels = kept;
        proof {
            assert(t0.todo_labels.take(t0.todo_labels.len() as int) =~= t0.todo_labels);
            let filtered = t0.todo_labels.filter(pred);
            assert(self@ =~= (TablesView {
                todos: t0.todos,
                labels: t0.labels,
                todo_labels: filtered,
                next_todo_id: t0.next_todo_id,
                next_label_id: t0.next_label_id,
            }));
            lemma_filter_distinct(t0.todo_labels, pred);
            lemma_filter_elems(t0.todo_labels, pred);
            assert forall|m: int| 0 <= m < filtered.len() implies has_todo_id(
                t0.todos,
                (#[trigger] filtered[m]).0,
            ) by {
                let j = choose|j: int|
                    0 <= j < t0.todo_labels.len() && t0.todo_labels[j] == filtered[m];
                assert(has_todo_id(t0.todos, t0.todo_labels[j].0));
            }
        }
    }

    /// Appends one association per listed label id, in list order.
    fn push_assocs(&mut self, id: i32, labels: &Vec<i32>)
        requires
            tables_wf(old(self)@),
            has_todo_id(old(self)@.todos, id as int),
            label_ids_ok(old(self)@, int_ids(labels@)),
            forall|k: int|
                0 <= k < old(self)@.todo_labels.len() ==> (#[trigger] old(
                    self,
                )@.todo_labels[k]).0 != id as int,
        ensures
            tables_wf(final(self)@),
            final(self)@ == (TablesView {
                todos: old(self)@.todos,
                labels: old(self)@.labels,
                todo_labels: old(self)@.todo_labels + int_ids(labels@).map_values(
                    pair_of_label(id as int),
                ),
                next_todo_id: old(self)@.next_todo_id,
                next_label_id: old(self)@.next_label_id,
            }),
    {
        let ghost t0 = self@;
        let ghost ids = int_ids(labels@);
        let ghost pf = pair_of_label(id as int);
        let mut k: usize = 0;
        while k < labels.len()
            invariant
                tables_wf(t0),
                has_todo_id(t0.todos, id as int),
                label_ids_ok(t0, ids),
                forall|m: int|
                    0 <= m < t0.todo_labels.len() ==> (#[trigger] t0.todo_labels[m]).0 != id as int,
                ids == int_ids(labels@),
                pf == pair_of_label(id as int),
                k <= labels@.len(),
                self@ == (TablesView {
                    todos: t0.todos,
                    labels: t0.labels,
                    todo_labels: t0.todo_labels + ids.take(k as int).map_values(pf),
                    next_todo_id: t0.next_todo_id,
                    next_label_id: t0.next_label_id,
                }),
            decreases labels@.len() - k,
        {
            let ghost pre = self@.todo_labels;
            let l = labels[k];
            self.todo_labels.push((id, l));
            proof {
                assert(ids.take(k as int + 1) =~= ids.take(k as int).push(l as int));
                let n = t0.todo_labels.len() as int;
                assert(self@.todo_labels =~= pre.push((id as int, l as int)));
                assert(pre == t0.todo_labels + ids.take(k as int).map_values(pf));
                assert forall|i: int|
                    0 <= i < self@.todo_labels.len() implies self@.todo_labels[i] == (
                t0.todo_labels + ids.take(k as int + 1).map_values(pf))[i] by {
                    if i < n + k {
                        assert(self@.todo_labels[i] == pre[i]);
                        if i >= n {
                            assert(ids.take(k as int)[i - n] == ids[i - n]);
                            assert(ids.take(k as int + 1)[i - n] == ids[i - n]);
                        }
                    } else {
                        assert(i == n + k);
                        assert(self@.todo_labels[i] == (id as int, l as int));
                        assert(ids.take(k as int + 1)[i - n] == l as int);
                        assert(pf(l as int) == (id as int, l as int));
                    }
                }
                assert(self@.todo_labels =~= t0.todo_labels + ids.take(k as int + 1).map_values(
                    pf,
                ));
                assert(self@ =~= (TablesView {
                    todos: t0.todos,
                    labels: t0.labels,
                    todo_labels: t0.todo_labels + ids.take(k as int + 1).map_values(pf),
                    next_todo_id: t0.next_todo_id,
                    next_label_id: t0.next_label_id,
                }));
            }
            k += 1;
        }
        proof {
            assert(ids.take(labels@.len() as int) =~= ids);
            let n = t0.todo_labels.len() as int;
            let pairs = t0.todo_labels + ids.map_values(pf);
            assert forall|a: int, b: int| 0 <= a < b < pairs.len() implies (#[trigger] pairs[a])
                != (#[trigger] pairs[b]) by {
                if b < n {
                    assert(pairs[a] == t0.todo_labels[a]);
                    assert(pairs[b] == t0.todo_labels[b]);
                } else if a < n {
                    assert(pairs[a] == t0.todo_labels[a]);
                    assert(pairs[a].0 != id as int);
                    assert(pairs[b] == pf(ids[b - n]));
                    assert(pairs[b].0 == id as int);
                } else {
                    assert(pairs[a] == pf(ids[a - n]));
                    assert(pairs[b] == pf(ids[b - n]));
                    assert(ids[a - n] != ids[b - n]);
                }
            }
            assert forall|m: int| 0 <= m < pairs.len() implies has_todo_id(
                t0.todos,
                (#[trigger] pairs[m]).0,
            ) by {
                if m < n {
                    assert(pairs[m] == t0.todo_labels[m]);
                } else {
                    assert(pairs[m] == pf(ids[m - n]));
                    assert(pairs[m].0 == id as int);
                }
            }
        }
    }
}

impl TodoRepository for TableStore {
    open spec fn wf(&self) -> bool {
        tables_wf(self@)
    }

    open spec fn tables(&self) -> TablesView {
        self@
    }

    #[verifier::rlimit(30)]
    fn create(&mut self, payload: CreateTodo) -> (r: Result<TodoEntity, RepositoryError>) {
        let ghost t0 = self@;
        let ghost pv = payload@;
        if self.next_todo_id == i32::MAX {
            return Err(
                RepositoryError::Unexpected(String::from_str("todo id space exhausted")),
            );
        }
        if !self.check_label_ids(&payload.labels) {
            proof {
                assert(pv.labels =~= int_ids(payload.labels@));
            }
            return Err(
                RepositoryError::Unexpected(
                    String::from_str("a requested label id does not exist or repeats"),
                ),
            );
        }
        proof {
            assert(pv.labels =~= int_ids(payload.labels@));
            assert(create_ok(t0, pv));
        }
        let CreateTodo { text, labels } = payload;
        let id = self.next_todo_id;
        self.next_todo_id = id + 1;
        self.todos.push(TodoFromRow::new(id, text, false));
        let ghost t1 = self@;
        proof {
            assert(t1.todos =~= t0.todos.push(
                TodoView { id: id as int, text: pv.text, completed: false },
            ));
            assert(t1 =~= (TablesView {
                todos: t0.todos.push(TodoView { id: id as int, text: pv.text, completed: false }),
                labels: t0.labels,
                todo_labels: t0.todo_labels,
                next_todo_id: t0.next_todo_id + 1,
                next_label_id: t0.next_label_id,
            }));
            assert forall|a: int, b: int| 0 <= a < b < t1.todos.len() implies (
            #[trigger] t1.todos[a]).id < (#[trigger] t1.todos[b]).id by {
                if b < t0.todos.len() {
                    assert(t1.todos[a] == t0.todos[a]);
                    assert(t1.todos[b] == t0.todos[b]);
                } else {
                    assert(t1.todos[b].id == id as int);
                    assert(t1.todos[a] == t0.todos[a]);
                    assert(t0.todos[a].id < t0.next_todo_id);
                }
            }
            assert forall|m: int| 0 <= m < t1.todo_labels.len() implies has_todo_id(
                t1.todos,
                (#[trigger] t1.todo_labels[m]).0,
            ) by {
                assert(t1.todo_labels[m] == t0.todo_labels[m]);
                assert(has_todo_id(t0.todos, t0.todo_labels[m].0));
                let w = choose|w: int|
                    0 <= w < t0.todos.len() && t0.todos[w].id == t0.todo_labels[m].0;
                assert(0 <= w < t0.todos.len() && t0.todos[w].id == t0.todo_labels[m].0);
                assert(t1.todos[w] == t0.todos[w]);
            }
            assert(tables_wf(t1));
            assert forall|m: int| 0 <= m < t1.todo_labels.len() implies (
            #[trigger] t1.todo_labels[m]).0 != id as int by {
                assert(t1.todo_labels[m] == t0.todo_labels[m]);
                assert(has_todo_id(t0.todos, t0.todo_labels[m].0));
                let w = choose|w: int|
                    0 <= w < t0.todos.len() && t0.todos[w].id == t0.todo_labels[m].0;
                assert(0 <= w < t0.todos.len() && t0.todos[w].id == t0.todo_labels[m].0);
                assert(t0.todos[w].id < t0.next_todo_id);
            }
            assert(t1.todos[t0.todos.len() as int].id == id as int);
            assert(has_todo_id(t1.todos, id as int));
            assert(label_ids_ok(t1, int_ids(labels@)));
        }
        self.push_assocs(id, &labels);
        proof {
            assert(self@.todo_labels =~= t0.todo_labels + pv.labels.map_values(
                pair_of_label(t0.next_todo_id),
            ));
            assert(self@ =~= spec_create(t0, pv));
        }
        match self.find(id) {
            Ok(e) => Ok(e),
            Err(_) => {
                proof {
                    assert(self@.todos[t0.todos.len() as int].id == id as int);
                    assert(has_todo_id(self@.todos, id as int));
                    assert(false);
                }
                Err(RepositoryError::NotFound(id))
            },
        }
    }

    fn find(&self, id: i32) -> (r: Result<TodoEntity, RepositoryError>) {
        match self.todo_position(id) {
            Some(i) => {
                let e = self.entity_at(i);
                Ok(e)
            },
            None => Err(RepositoryError::NotFound(id)),
        }
    }

    fn all(&self) -> (r: Result<Vec<TodoEntity>, RepositoryError>) {
        let n = self.todos.len();
        let mut out: Vec<TodoEntity> = Vec::new();
        let mut k: usize = 0;
        while k < n
            invariant
                tables_wf(self@),
                n == self@.todos.len(),
                k <= n,
                out@.len() == k,
                forall|m: int| 0 <= m < k ==> out@[m]@ == entities_desc(self@)[m],
            decreases n - k,
        {
            let e = self.entity_at(n - 1 - k);
            out.push(e);
            proof {
                assert(entities_desc(self@)[k as int] == entity_of(
                    self@,
                    self@.todos[self@.todos.len() - 1 - k as int].id,
                ));
            }
            k += 1;
        }
        proof {
            assert(entity_views(out@) =~= entities_desc(self@));
        }
        Ok(out)
    }

    #[verifier::rlimit(30)]
    fn update(&mut self, id: i32, payload: UpdateTodo) -> (r: Result<
        TodoEntity,
        RepositoryError,
    >) {
        let ghost t0 = self@;
        let ghost pv = payload@;
        let pos: usize;
        match self.todo_position(id) {
            Some(i) => {
                pos = i;
            },
            None => {
                return Err(RepositoryError::NotFound(id));
            },
        }
        if let Some(ls) = &payload.labels {
            if !self.check_label_ids(ls) {
                proof {
                    assert(pv.labels matches Some(s) && s =~= int_ids(ls@));
                }
                return Err(
                    RepositoryError::Unexpected(
                        String::from_str("a requested label id does not exist or repeats"),
                    ),
                );
            }
            proof {
                assert(pv.labels matches Some(s) && s =~= int_ids(ls@));
            }
        }
        proof {
            assert(update_ok(t0, id as int, pv));
        }
        let UpdateTodo { text, completed, labels } = payload;
        let new_text = match text {
            Some(s) => s,
            None => self.todos[pos].text.clone(),
        };
        let new_completed = match completed {
            Some(c) => c,
            None => self.todos[pos].completed,
        };
        let row = TodoFromRow::new(id, new_text, new_completed);
        self.todos.remove(pos);
        self.todos.insert(pos, row);
        let ghost t1 = self@;
        proof {
            assert(t0.todos[pos as int].id == id as int);
            assert(row@ == merged_row(t0.todos[pos as int], pv));
            assert(t1.todos =~= t0.todos.update(pos as int, merged_row(t0.todos[pos as int], pv)));
            assert(t1 =~= (TablesView {
                todos: t0.todos.update(pos as int, merged_row(t0.todos[pos as int], pv)),
                labels: t0.labels,
                todo_labels: t0.todo_labels,
                next_todo_id: t0.next_todo_id,
                next_label_id: t0.next_label_id,
            }));
            assert forall|a: int, b: int| 0 <= a < b < t1.todos.len() implies (
            #[trigger] t1.todos[a]).id < (#[trigger] t1.todos[b]).id by {
                assert(t1.todos[a].id == t0.todos[a].id);
                assert(t1.todos[b].id == t0.todos[b].id);
            }
            assert forall|m: int| 0 <= m < t1.todo_labels.len() implies has_todo_id(
                t1.todos,
                (#[trigger] t1.todo_labels[m]).0,
            ) by {
                assert(t1.todo_labels[m] == t0.todo_labels[m]);
                assert(has_todo_id(t0.todos, t0.todo_labels[m].0));
                let w = choose|w: int|
                    0 <= w < t0.todos.len() && t0.todos[w].id == t0.todo_labels[m].0;
                assert(0 <= w < t0.todos.len() && t0.todos[w].id == t0.todo_labels[m].0);
                assert(t1.todos[w].id == t0.todos[w].id);
            }
            assert(tables_wf(t1));
        }
        match labels {
            Some(ls) => {
                self.retain_other_assocs(id);
                proof {
                    assert forall|m: int| 0 <= m < self@.todo_labels.len() implies (
                    #[trigger] self@.todo_labels[m]).0 != id as int by {
                        t1.todo_labels.lemma_filter_pred(keeps_others(id as int), m);
                    }
                    assert(self@.todos[pos as int].id == id as int);
                    assert(has_todo_id(self@.todos, id as int));
                    assert(label_ids_ok(self@, int_ids(ls@)));
                }
                self.push_assocs(id, &ls);
                proof {
                    assert(self@.todo_labels =~= t0.todo_labels.filter(keeps_others(id as int))
                        + pv.labels->0.map_values(pair_of_label(id as int)));
                    assert(self@ =~= spec_update(t0, id as int, pv));
                }
            },
            None => {
                proof {
                    assert(self@ =~= spec_update(t0, id as int, pv));
                }
            },
        }
        match self.find(id) {
            Ok(e) => Ok(e),
            Err(_) => {
                proof {
                    assert(self@.todos[pos as int].id == id as int);
                    assert(has_todo_id(self@.todos, id as int));
                    assert(false);
                }
                Err(RepositoryError::NotFound(id))
            },
        }
    }

    #[verifier::rlimit(60)]
    fn delete(&mut self, id: i32) -> (r: Result<(), RepositoryError>) {
        let ghost t0 = self@;
        match self.todo_position(id) {
            None => Err(RepositoryError::NotFound(id)),
            Some(i) => {
                self.retain_other_assocs(id);
                let ghost t1 = self@;
                self.todos.remove(i);
                proof {
                    assert(self@.todos =~= t0.todos.remove(i as int));
                    assert(self@ =~= spec_delete(t0, id as int));
                    assert forall|a: int, b: int| 0 <= a < b < self@.todos.len() implies (
                    #[trigger] self@.todos[a]).id < (#[trigger] self@.todos[b]).id by {
                        let a0 = if a < i as int {
                            a
                        } else {
                            a + 1
                        };
                        let b0 = if b < i as int {
                            b
                        } else {
                            b + 1
                        };
                        assert(self@.todos[a] == t0.todos[a0]);
                        assert(self@.todos[b] == t0.todos[b0]);
                        assert(t0.todos[a0].id < t0.todos[b0].id);
                    }
                    assert forall|m: int| 0 <= m < self@.todo_labels.len() implies has_todo_id(
                        self@.todos,
                        (#[trigger] self@.todo_labels[m]).0,
                    ) by {
                        t0.todo_labels.lemma_filter_pred(keeps_others(id as int), m);
                        assert(self@.todo_labels[m] == t1.todo_labels[m]);
                        assert(self@.todo_labels[m].0 != id as int);
                        assert(has_todo_id(t0.todos, self@.todo_labels[m].0));
                        let w = choose|w: int|
                            0 <= w < t0.todos.len() && t0.todos[w].id == self@.todo_labels[m].0;
                        assert(w != i as int);
                        let w1 = if w < i as int {
                            w
                        } else {
                            w - 1
                        };
                        assert(self@.todos[w1] == t0.todos[w]);
                    }
                    assert forall|a: int| 0 <= a < self@.todos.len() implies 1 <= (
                    #[trigger] self@.todos[a]).id < self@.next_todo_id by {
                        let a0 = if a < i as int {
                            a
                        } else {
                            a + 1
                        };
                        assert(self@.todos[a] == t0.todos[a0]);
                    }
                    assert forall|a: int, b: int| 0 <= a < b < self@.todo_labels.len() implies (
                    #[trigger] self@.todo_labels[a]) != (#[trigger] self@.todo_labels[b]) by {
                        assert(self@.todo_labels[a] == t1.todo_labels[a]);
                        assert(self@.todo_labels[b] == t1.todo_labels[b]);
                    }
                    assert(tables_wf(self@));
                }
                Ok(())
            },
        }
    }
}

impl LabelRepository for TableStore {
    type Remainder = (Seq<TodoView>, Seq<(int, int)>, int);

    open spec fn labels_wf(&self) -> bool {
        tables_wf(self@)
    }

    open spec fn labels(&self) -> Seq<LabelView> {
        self@.labels
    }

    open spec fn label_id_space(&self) -> int {
        self@.next_label_id
    }

    /// Everything the store holds besides the label table: the todo
    /// table, the association table, and the todo id counter.
    open spec fn remainder(&self) -> (Seq<TodoView>, Seq<(int, int)>, int) {
        (self@.todos, self@.todo_labels, self@.next_todo_id)
    }

    fn create(&mut self, name: String) -> (r: Result<Label, RepositoryError>) {
        let ghost t0 = self@;
        match self.label_position_by_name(&name) {
            Some(i) => {
                let existing = self.labels[i].id;
                proof {
                    assert(existing as int == label_id_of_name(t0.labels, name@));
                }
                Err(RepositoryError::Duplicate(existing))
            },
            None => {
                if self.next_label_id == i32::MAX {
                    return Err(
                        RepositoryError::Unexpected(String::from_str("label id space exhausted")),
                    );
                }
                let id = self.next_label_id;
                self.next_label_id = id + 1;
                let label = Label::new(id, name);
                self.labels.push(label.clone());
                proof {
                    assert(self@.labels =~= t0.labels.push(
                        LabelView { id: id as int, name: name@ },
                    ));
                    assert(self@ =~= spec_create_label(t0, name@));
                    assert forall|a: int, b: int| 0 <= a < b < self@.labels.len() implies (
                    #[trigger] self@.labels[a]).id < (#[trigger] self@.labels[b]).id by {
                        if b < t0.labels.len() {
                            assert(self@.labels[a] == t0.labels[a]);
                            assert(self@.labels[b] == t0.labels[b]);
                        } else {
                            assert(self@.labels[b].id == id as int);
                            assert(self@.labels[a] == t0.labels[a]);
                            assert(t0.labels[a].id < t0.next_label_id);
                        }
                    }
                    assert forall|a: int, b: int| 0 <= a < b < self@.labels.len() implies (
                    #[trigger] self@.labels[a]).name != (#[trigger] self@.labels[b]).name by {
                        if b < t0.labels.len() {
                            assert(self@.labels[a] == t0.labels[a]);
                            assert(self@.labels[b] == t0.labels[b]);
                        } else {
                            assert(self@.labels[b].name == name@);
                            assert(self@.labels[a] == t0.labels[a]);
                            if t0.labels[a].name == name@ {
                                assert(has_label_name(t0.labels, name@));
                            }
                        }
                    }
                    assert(tables_wf(self@));
                }
                Ok(label)
            },
        }
    }

    fn all(&self) -> (r: Vec<Label>) {
        let mut out: Vec<Label> = Vec::new();
        let mut k: usize = 0;
        while k < self.labels.len()
            invariant
                k <= self@.labels.len(),
                out@.len() == k,
                forall|m: int| 0 <= m < k ==> out@[m]@ == self@.labels[m],
            decreases self@.labels.len() - k,
        {
            out.push(self.labels[k].clone());
            k += 1;
        }
        proof {
            assert(out@.map_values(|l: Label| l@) =~= self@.labels);
        }
        out
    }

    fn delete(&mut self, id: i32) -> (r: Result<(), RepositoryError>) {
        let ghost t0 = self@;
        match self.label_position(id) {
            None => Err(RepositoryError::NotFound(id)),
            Some(i) => {
                self.labels.remove(i);
                proof {
                    assert(self@.labels =~= t0.labels.remove(i as int));
                    assert(!(other_label(id as int)(t0.labels[i as int])));
                    assert forall|j: int|
                        0 <= j < t0.labels.len() && j != i as int implies other_label(
                        id as int,
                    )(#[trigger] t0.labels[j]) by {
                        if t0.labels[j].id == id as int {
                            if j < i as int {
                                assert(t0.labels[j].id < t0.labels[i as int].id);
                            } else {
                                assert(t0.labels[i as int].id < t0.labels[j].id);
                            }
                        }
                    }
                    lemma_filter_out_unique(t0.labels, i as int, other_label(id as int));
                    assert(self@.labels == remove_label(t0.labels, id as int));
                    assert(self@ =~= spec_delete_label(t0, id as int));
                    assert forall|a: int, b: int| 0 <= a < b < self@.labels.len() implies (
                    #[trigger] self@.labels[a]).id < (#[trigger] self@.labels[b]).id by {
                        let a0 = if a < i as int {
                            a
                        } else {
                            a + 1
                        };
                        let b0 = if b < i as int {
                            b
                        } else {
                            b + 1
                        };
                        assert(self@.labels[a] == t0.labels[a0]);
                        assert(self@.labels[b] == t0.labels[b0]);
                        assert(t0.labels[a0].id < t0.labels[b0].id);
                    }
                    assert forall|a: int, b: int| 0 <= a < b < self@.labels.len() implies (
                    #[trigger] self@.labels[a]).name != (#[trigger] self@.labels[b]).name by {
                        let a0 = if a < i as int {
                            a
                        } else {
                            a + 1
                        };
                        let b0 = if b < i as int {
                            b
                        } else {
                            b + 1
                        };
                        assert(self@.labels[a] == t0.labels[a0]);
                        assert(self@.labels[b] == t0.labels[b0]);
                        assert(t0.labels[a0].name != t0.labels[b0].name);
                    }
                    assert(tables_wf(self@));
                }
                Ok(())
            },
        }
    }
}

} // verus!
