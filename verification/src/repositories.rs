//! Shared repository vocabulary: the error kinds every backend reports,
//! the simple todo record, and the in-memory repository.

use vstd::prelude::*;

pub mod label;
pub mod todo;

verus! {

/// The ways a repository operation can fail.
///
/// `NotFound` carries the id that was asked for, `Duplicate` the id of
/// the record that already owns the contested unique value, and
/// `Unexpected` a diagnostic message for every other store failure.
#[derive(Debug, PartialEq, Eq)]
pub enum RepositoryError {
    NotFound(i32),
    Duplicate(i32),
    Unexpected(String),
}

impl Clone for RepositoryError {
    fn clone(&self) -> (r: Self)
        ensures
            r == *self,
    {
        match self {
            RepositoryError::NotFound(id) => RepositoryError::NotFound(*id),
            RepositoryError::Duplicate(id) => RepositoryError::Duplicate(*id),
            RepositoryError::Unexpected(msg) => RepositoryError::Unexpected(msg.clone()),
        }
    }
}

/// Mathematical image of a stored todo record.
pub ghost struct TodoView {
    pub id: int,
    pub text: Seq<char>,
    pub completed: bool,
}

/// A todo record as the in-memory store keeps it: an identifier, the
/// task text, and whether the task is done.
#[derive(Debug, PartialEq, Eq)]
pub struct Todo {
    id: i32,
    text: String,
    completed: bool,
}

impl View for Todo {
    type V = TodoView;

    closed spec fn view(&self) -> TodoView {
        TodoView { id: self.id as int, text: self.text@, completed: self.completed }
    }
}

impl Clone for Todo {
    fn clone(&self) -> (r: Self)
        ensures
            r@ == self@,
    {
        Todo { id: self.id, text: self.text.clone(), completed: self.completed }
    }
}

impl Todo {
    /// A fresh record always starts out not completed.
    pub fn new(id: i32, text: String) -> (r: Self)
        ensures
            r@ == (TodoView { id: id as int, text: text@, completed: false }),
    {
        Todo { id, text, completed: false }
    }

    pub fn id(&self) -> (r: i32)
        ensures
            r as int == self@.id,
    {
        self.id
    }

    pub fn text(&self) -> (r: &String)
        ensures
            r@ == self@.text,
    {
        &self.text
    }

    pub fn completed(&self) -> (r: bool)
        ensures
            r == self@.completed,
    {
        self.completed
    }
}

/// Payload for creating a simple todo; its view is the task text.
#[derive(Debug, PartialEq, Eq)]
pub struct CreateTodo {
    text: String,
}

impl View for CreateTodo {
    type V = Seq<char>;

    closed spec fn view(&self) -> Seq<char> {
        self.text@
    }
}

impl CreateTodo {
    pub fn new(text: String) -> (r: Self)
        ensures
            r@ == text@,
    {
        CreateTodo { text }
    }
}

/// Mathematical image of an update payload: absent fields leave the
/// stored value unchanged.
pub ghost struct UpdateTodoView {
    pub text: Option<Seq<char>>,
    pub completed: Option<bool>,
}

/// Payload for updating a simple todo; every field is optional.
#[derive(Debug, PartialEq, Eq)]
pub struct UpdateTodo {
    text: Option<String>,
    completed: Option<bool>,
}

impl View for UpdateTodo {
    type V = UpdateTodoView;

    closed spec fn view(&self) -> UpdateTodoView {
        UpdateTodoView {
            text: match self.text {
                Some(t) => Some(t@),
                None => None,
            },
            completed: self.completed,
        }
    }
}

impl UpdateTodo {
    pub fn new(text: Option<String>, completed: Option<bool>) -> (r: Self)
        ensures
            r@.text == (match text {
                Some(t) => Some(t@),
                None => None::<Seq<char>>,
            }),
            r@.completed == completed,
    {
        UpdateTodo { text, completed }
    }
}

/// The stored record an update leaves behind: fields present in the
/// payload replace the old values, absent ones keep them.
pub open spec fn merged_todo(old_row: TodoView, payload: UpdateTodoView) -> TodoView {
    TodoView {
        id: old_row.id,
        text: match payload.text {
            Some(t) => t,
            None => old_row.text,
        },
        completed: match payload.completed {
            Some(c) => c,
            None => old_row.completed,
        },
    }
}

/// The operation set every simple todo store offers. `contents` is the
/// record map the store currently holds, keyed by id; `count` is the
/// number of records, which also drives id assignment in `create`.
pub trait TodoRepository: Sized {
    spec fn wf(&self) -> bool;

    spec fn contents(&self) -> Map<int, TodoView>;

    spec fn count(&self) -> nat;

    /// Inserts a record with id `count() + 1`; when a record with that
    /// id survives from before, it is overwritten and the count stays.
    fn create(&mut self, payload: CreateTodo) -> (r: Todo)
        requires
            old(self).wf(),
            old(self).count() + 1 <= i32::MAX,
        ensures
            final(self).wf(),
            r@ == (TodoView {
                id: old(self).count() + 1 as int,
                text: payload@,
                completed: false,
            }),
            final(self).contents() == old(self).contents().insert(r@.id, r@),
            final(self).count() == if old(self).contents().contains_key(r@.id) {
                old(self).count()
            } else {
                old(self).count() + 1
            },
    ;

    /// Returns the record with the given id, if the store holds one;
    /// a returned record always carries the id it was looked up by.
    fn find(&self, id: i32) -> (r: Option<Todo>)
        requires
            self.wf(),
        ensures
            r is Some <==> self.contents().contains_key(id as int),
            r matches Some(t) ==> t@ == self.contents()[id as int] && t@.id == id as int,
    ;

    /// Returns every stored record, in no promised order.
    fn all(&self) -> (r: Vec<Todo>)
        requires
            self.wf(),
        ensures
            forall|i: int|
                0 <= i < r@.len() ==> self.contents().contains_key(#[trigger] r@[i]@.id)
                    && self.contents()[r@[i]@.id] == r@[i]@,
            forall|id: int|
                self.contents().contains_key(id) ==> exists|i: int|
                    0 <= i < r@.len() && #[trigger] r@[i]@.id == id,
            forall|i: int, j: int| 0 <= i < j < r@.len() ==> r@[i]@.id != r@[j]@.id,
    ;

    /// Rewrites the record's mutable fields, keeping stored values for
    /// fields the payload leaves out; fails when the id is absent.
    fn update(&mut self, id: i32, payload: UpdateTodo) -> (r: Result<Todo, RepositoryError>)
        requires
            old(self).wf(),
        ensures
            final(self).wf(),
            r is Ok <==> old(self).contents().contains_key(id as int),
            r matches Ok(t) ==> {
                &&& t@ == merged_todo(old(self).contents()[id as int], payload@)
                &&& t@.id == id as int
                &&& final(self).contents() == old(self).contents().insert(id as int, t@)
            },
            r matches Err(e) ==> {
                &&& e == RepositoryError::NotFound(id)
                &&& final(self).contents() == old(self).contents()
            },
            final(self).count() == old(self).count(),
    ;

    /// Removes the record with the given id; fails when it is absent.
    fn delete(&mut self, id: i32) -> (r: Result<(), RepositoryError>)
        requires
            old(self).wf(),
        ensures
            final(self).wf(),
            r is Ok <==> old(self).contents().contains_key(id as int),
            r is Ok ==> final(self).contents() == old(self).contents().remove(id as int)
                && final(self).count() == old(self).count() - 1,
            r matches Err(e) ==> {
                &&& e == RepositoryError::NotFound(id)
                &&& final(self).contents() == old(self).contents()
                &&& final(self).count() == old(self).count()
            },
    ;
}

/// An in-memory todo store: a flat list of records with pairwise
/// distinct ids, standing in for a map guarded by a lock.
#[derive(Debug)]
pub struct TodoRepositoryForMemory {
    store: Vec<Todo>,
}

impl TodoRepositoryForMemory {
    pub fn new() -> (r: Self)
        ensures
            r.wf(),
            r.contents() == Map::<int, TodoView>::empty(),
            r.count() == 0,
    {
        let r = TodoRepositoryForMemory { store: Vec::new() };
        proof {
            assert(r.contents() =~= Map::<int, TodoView>::empty());
        }
        r
    }

    spec fn rows(&self) -> Seq<TodoView> {
        self.store@.map_values(|t: Todo| t@)
    }

    spec fn has_id(&self, id: int) -> bool {
        exists|i: int| 0 <= i < self.rows().len() && self.rows()[i].id == id
    }

    spec fn idx_of(&self, id: int) -> int {
        choose|i: int| 0 <= i < self.rows().len() && self.rows()[i].id == id
    }

    /// Scans for the position of the record with the given id.
    fn position_of(&self, id: i32) -> (r: Option<usize>)
        requires
            self.wf(),
        ensures
            r is Some <==> self.has_id(id as int),
            r matches Some(i) ==> i < self.store@.len() && self.rows()[i as int].id == id as int
                && i as int == self.idx_of(id as int),
    {
        let mut i: usize = 0;
        while i < self.store.len()
            invariant
                self.wf(),
                i <= self.store@.len(),
                forall|k: int| 0 <= k < i ==> self.rows()[k].id != id as int,
            decreases self.store@.len() - i,
        {
            if self.store[i].id() == id {
                proof {
                    assert(self.rows()[i as int].id == id as int);
                    assert(self.has_id(id as int));
                    let j = self.idx_of(id as int);
                    assert(0 <= j < self.rows().len() && self.rows()[j].id == id as int);
                    assert(j == i as int);
                }
                return Some(i);
            }
            i += 1;
        }
        None
    }
}

impl TodoRepository for TodoRepositoryForMemory {
    closed spec fn wf(&self) -> bool {
        forall|i: int, j: int|
            0 <= i < j < self.rows().len() ==> self.rows()[i].id != self.rows()[j].id
    }

    closed spec fn contents(&self) -> Map<int, TodoView> {
        Map::new(|id: int| self.has_id(id), |id: int| self.rows()[self.idx_of(id)])
    }

    closed spec fn count(&self) -> nat {
        self.store@.len()
    }

    fn create(&mut self, payload: CreateTodo) -> (r: Todo) {
        let id = (self.store.len() + 1) as i32;
        let todo = Todo::new(id, payload.text);
        let ghost pre = *self;
        match self.position_of(id) {
            Some(i) => {
                self.store.remove(i);
                self.store.insert(i, todo.clone());
                proof {
                    assert(self.rows() =~= pre.rows().update(i as int, todo@));
                    lemma_rows_update(pre, *self, i as int, todo@);
                }
            },
            None => {
                self.store.push(todo.clone());
                proof {
                    assert(self.rows() =~= pre.rows().push(todo@));
                    lemma_rows_push(pre, *self, todo@);
                }
            },
        }
        todo
    }

    fn find(&self, id: i32) -> (r: Option<Todo>) {
        match self.position_of(id) {
            Some(i) => Some(self.store[i].clone()),
            None => None,
        }
    }

    fn all(&self) -> (r: Vec<Todo>) {
        let mut out: Vec<Todo> = Vec::new();
        let mut i: usize = 0;
        while i < self.store.len()
            invariant
                self.wf(),
                i <= self.store@.len(),
                out@.len() == i,
                forall|k: int| 0 <= k < i ==> out@[k]@ == self.rows()[k],
            decreases self.store@.len() - i,
        {
            out.push(self.store[i].clone());
            i += 1;
        }
        proof {
            assert forall|k: int| 0 <= k < out@.len() implies self.contents().contains_key(
                #[trigger] out@[k]@.id,
            ) && self.contents()[out@[k]@.id] == out@[k]@ by {
                assert(self.rows()[k].id == out@[k]@.id);
                let j = self.idx_of(out@[k]@.id);
                assert(0 <= j < self.rows().len() && self.rows()[j].id == out@[k]@.id);
                assert(j == k);
            }
            assert forall|id: int| self.contents().contains_key(id) implies exists|i: int|
                0 <= i < out@.len() && #[trigger] out@[i]@.id == id by {
                let j = self.idx_of(id);
                assert(out@[j]@.id == id);
            }
            assert forall|a: int, b: int| 0 <= a < b < out@.len() implies out@[a]@.id
                != out@[b]@.id by {
                assert(out@[a]@ == self.rows()[a]);
                assert(out@[b]@ == self.rows()[b]);
            }
        }
        out
    }

    fn update(&mut self, id: i32, payload: UpdateTodo) -> (r: Result<Todo, RepositoryError>) {
        let ghost pre = *self;
        match self.position_of(id) {
            Some(i) => {
                let text = match payload.text {
                    Some(t) => t,
                    None => self.store[i].text.clone(),
                };
                let completed = match payload.completed {
                    Some(c) => c,
                    None => self.store[i].completed,
                };
                let todo = Todo { id, text, completed };
                self.store.remove(i);
                self.store.insert(i, todo.clone());
                proof {
                    assert(self.rows() =~= pre.rows().update(i as int, todo@));
                    lemma_rows_update(pre, *self, i as int, todo@);
                    assert(pre.contents()[id as int] == pre.rows()[i as int]);
                }
                Ok(todo)
            },
            None => {
                proof {
                    assert(!pre.contents().contains_key(id as int));
                }
                Err(RepositoryError::NotFound(id))
            },
        }
    }

    fn delete(&mut self, id: i32) -> (r: Result<(), RepositoryError>) {
        let ghost pre = *self;
        match self.position_of(id) {
            Some(i) => {
                self.store.remove(i);
                proof {
                    assert(self.rows() =~= pre.rows().remove(i as int));
                    lemma_rows_remove(pre, *self, i as int);
                }
                Ok(())
            },
            None => Err(RepositoryError::NotFound(id)),
        }
    }
}

/// After replacing the record at position `i` by one with the same id,
/// the content map has that id rebound and everything else unchanged.
proof fn lemma_rows_update(pre: TodoRepositoryForMemory, post: TodoRepositoryForMemory, i: int, v: TodoView)
    requires
        pre.wf(),
        0 <= i < pre.rows().len(),
        v.id == pre.rows()[i].id,
        post.rows() == pre.rows().update(i, v),
    ensures
        post.wf(),
        post.contents() == pre.contents().insert(v.id, v),
{
    assert forall|a: int, b: int| 0 <= a < b < post.rows().len() implies post.rows()[a].id
        != post.rows()[b].id by {
        assert(pre.rows()[a].id != pre.rows()[b].id);
    }
    assert forall|id: int| #[trigger] post.contents().contains_key(id) == pre.contents().insert(
        v.id,
        v,
    ).contains_key(id) by {
        if id == v.id {
            assert(post.rows()[i].id == id);
            assert(post.has_id(id));
        } else {
            if pre.has_id(id) {
                let j = pre.idx_of(id);
                assert(post.rows()[j].id == id);
                assert(post.has_id(id));
            }
            if post.has_id(id) {
                let j = post.idx_of(id);
                assert(pre.rows()[j].id == id);
                assert(pre.has_id(id));
            }
        }
    }
    assert forall|id: int| post.contents().contains_key(id) implies post.contents()[id]
        == pre.contents().insert(v.id, v)[id] by {
        let j = post.idx_of(id);
        assert(0 <= j < post.rows().len() && post.rows()[j].id == id);
        if id == v.id {
            assert(j == i);
            assert(post.contents()[id] == v);
        } else {
            assert(j != i);
            assert(pre.rows()[j].id == id);
            let k = pre.idx_of(id);
            assert(k == j);
        }
    }
    assert(post.contents() =~= pre.contents().insert(v.id, v));
}

/// After appending a record whose id is new, the content map gains
/// exactly that binding.
proof fn lemma_rows_push(pre: TodoRepositoryForMemory, post: TodoRepositoryForMemory, v: TodoView)
    requires
        pre.wf(),
        !pre.has_id(v.id),
        post.rows() == pre.rows().push(v),
    ensures
        post.wf(),
        post.contents() == pre.contents().insert(v.id, v),
        !pre.contents().contains_key(v.id),
{
    let n = pre.rows().len() as int;
    assert forall|a: int, b: int| 0 <= a < b < post.rows().len() implies post.rows()[a].id
        != post.rows()[b].id by {
        if b < n {
            assert(pre.rows()[a].id != pre.rows()[b].id);
        } else {
            assert(post.rows()[b] == v);
            assert(post.rows()[a] == pre.rows()[a]);
        }
    }
    assert forall|id: int| #[trigger] post.contents().contains_key(id) == pre.contents().insert(
        v.id,
        v,
    ).contains_key(id) by {
        if id == v.id {
            assert(post.rows()[n].id == id);
            assert(post.has_id(id));
        } else {
            if pre.has_id(id) {
                let j = pre.idx_of(id);
                assert(post.rows()[j].id == id);
            }
            if post.has_id(id) {
                let j = post.idx_of(id);
                assert(j != n);
                assert(pre.rows()[j].id == id);
            }
        }
    }
    assert forall|id: int| post.contents().contains_key(id) implies post.contents()[id]
        == pre.contents().insert(v.id, v)[id] by {
        let j = post.idx_of(id);
        assert(0 <= j < post.rows().len() && post.rows()[j].id == id);
        if id == v.id {
            assert(j == n);
        } else {
            assert(j != n);
            assert(pre.rows()[j].id == id);
            let k = pre.idx_of(id);
            assert(k == j);
        }
    }
    assert(post.contents() =~= pre.contents().insert(v.id, v));
}

/// After removing the record at position `i`, the content map loses
/// exactly that record's id.
proof fn lemma_rows_remove(pre: TodoRepositoryForMemory, post: TodoRepositoryForMemory, i: int)
    requires
        pre.wf(),
        0 <= i < pre.rows().len(),
        post.rows() == pre.rows().remove(i),
    ensures
        post.wf(),
        post.contents() == pre.contents().remove(pre.rows()[i].id),
{
    let id0 = pre.rows()[i].id;
    assert forall|a: int, b: int| 0 <= a < b < post.rows().len() implies post.rows()[a].id
        != post.rows()[b].id by {
        let a0 = if a < i { a } else { a + 1 };
        let b0 = if b < i { b } else { b + 1 };
        assert(post.rows()[a] == pre.rows()[a0]);
        assert(post.rows()[b] == pre.rows()[b0]);
        assert(pre.rows()[a0].id != pre.rows()[b0].id);
    }
    assert forall|id: int| #[trigger] post.contents().contains_key(id) == pre.contents().remove(
        id0,
    ).contains_key(id) by {
        if post.has_id(id) {
            let j = post.idx_of(id);
            let j0 = if j < i { j } else { j + 1 };
            assert(post.rows()[j] == pre.rows()[j0]);
            assert(pre.rows()[j0].id == id);
            assert(id != id0 ==> pre.has_id(id));
            assert(id == id0 ==> j0 != i && pre.rows()[j0].id == pre.rows()[i].id && false);
        }
        if id != id0 && pre.has_id(id) {
            let j = pre.idx_of(id);
            assert(j != i);
            let j1 = if j < i { j } else { j - 1 };
            assert(post.rows()[j1] == pre.rows()[j]);
            assert(post.has_id(id));
        }
    }
    assert forall|id: int| post.contents().contains_key(id) implies post.contents()[id]
        == pre.contents().remove(id0)[id] by {
        let j = post.idx_of(id);
        let j0 = if j < i { j } else { j + 1 };
        assert(post.rows()[j] == pre.rows()[j0]);
        assert(pre.rows()[j0].id == id);
        let k = pre.idx_of(id);
        assert(k == j0);
    }
    assert(post.contents() =~= pre.contents().remove(id0));
}

} // verus!
