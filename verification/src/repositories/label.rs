//! Labels: independent named tags that todos may carry, with a
//! store-enforced unique name.

use vstd::prelude::*;

use crate::repositories::RepositoryError;

verus! {

/// Mathematical image of a label record.
pub ghost struct LabelView {
    pub id: int,
    pub name: Seq<char>,
}

/// A label record: an identifier and its unique name.
#[derive(Debug, PartialEq, Eq)]
pub struct Label {
    pub id: i32,
    pub name: String,
}

impl View for Label {
    type V = LabelView;

    open spec fn view(&self) -> LabelView {
        LabelView { id: self.id as int, name: self.name@ }
    }
}

impl Clone for Label {
    fn clone(&self) -> (r: Self)
        ensures
            r@ == self@,
    {
        Label { id: self.id, name: self.name.clone() }
    }
}

impl Label {
    pub fn new(id: i32, name: String) -> (r: Self)
        ensures
            r@ == (LabelView { id: id as int, name: name@ }),
    {
        Label { id, name }
    }
}

/// Payload for creating a label; its view is the requested name.
#[derive(Debug, PartialEq, Eq)]
pub struct CreateLabel {
    name: String,
}

impl View for CreateLabel {
    type V = Seq<char>;

    closed spec fn view(&self) -> Seq<char> {
        self.name@
    }
}

impl CreateLabel {
    pub fn new(name: String) -> (r: Self)
        ensures
            r@ == name@,
    {
        CreateLabel { name }
    }

    pub fn into_name(self) -> (r: String)
        ensures
            r@ == self@,
    {
        self.name
    }
}

/// Payload shape for renaming a label; the store does not act on it
/// yet, so it only carries its fields.
#[derive(Debug, PartialEq, Eq)]
pub struct UpdateLabel {
    id: i32,
    name: String,
}

impl View for UpdateLabel {
    type V = LabelView;

    closed spec fn view(&self) -> LabelView {
        LabelView { id: self.id as int, name: self.name@ }
    }
}

impl UpdateLabel {
    pub fn new(id: i32, name: String) -> (r: Self)
        ensures
            r@ == (LabelView { id: id as int, name: name@ }),
    {
        UpdateLabel { id, name }
    }
}

/// The operation set every label store offers. `labels` is the current
/// record sequence in ascending id order. `remainder` is everything
/// the store holds besides the label table and its id counter (for a
/// store that also keeps todos: the todo table, the association table
/// and the todo id counter): label operations act on the label table
/// only and leave the remainder exactly as it was.
pub trait LabelRepository: Sized {
    type Remainder;

    spec fn labels_wf(&self) -> bool;

    spec fn labels(&self) -> Seq<LabelView>;

    spec fn label_id_space(&self) -> int;

    spec fn remainder(&self) -> Self::Remainder;

    /// Inserts a label with a fresh id, unless the name is taken: then
    /// it fails with `Duplicate` carrying the existing label's id, and
    /// the store keeps its records. A store that has run out of ids
    /// reports `Unexpected` and also stays unchanged. Whatever the
    /// outcome, nothing outside the label table is touched.
    fn create(&mut self, name: String) -> (r: Result<Label, RepositoryError>)
        requires
            old(self).labels_wf(),
        ensures
            final(self).labels_wf(),
            final(self).remainder() == old(self).remainder(),
            r is Ok <==> !has_label_name(old(self).labels(), name@) && old(self).label_id_space()
                < i32::MAX,
            r matches Ok(l) ==> {
                &&& l@ == (LabelView { id: old(self).label_id_space(), name: name@ })
                &&& final(self).labels() == old(self).labels().push(l@)
                &&& final(self).label_id_space() == old(self).label_id_space() + 1
            },
            r matches Err(e) ==> {
                &&& final(self).labels() == old(self).labels()
                &&& final(self).label_id_space() == old(self).label_id_space()
                &&& has_label_name(old(self).labels(), name@) ==> e == RepositoryError::Duplicate(
                    label_id_of_name(old(self).labels(), name@) as i32,
                )
                &&& !has_label_name(old(self).labels(), name@) ==> e matches
                    RepositoryError::Unexpected(_)
            },
    ;

    /// Returns every label, in ascending id order.
    fn all(&self) -> (r: Vec<Label>)
        requires
            self.labels_wf(),
        ensures
            r@.map_values(|l: Label| l@) == self.labels(),
    ;

    /// Removes the label row only: associations that point at it are
    /// deliberately left behind, dangling, and the rest of the store —
    /// the remainder — is untouched. Fails when the id is absent, and
    /// then changes nothing at all.
    fn delete(&mut self, id: i32) -> (r: Result<(), RepositoryError>)
        requires
            old(self).labels_wf(),
        ensures
            final(self).labels_wf(),
            final(self).remainder() == old(self).remainder(),
            final(self).label_id_space() == old(self).label_id_space(),
            r is Ok <==> has_label_id(old(self).labels(), id as int),
            r is Ok ==> final(self).labels() == remove_label(old(self).labels(), id as int),
            r matches Err(e) ==> e == RepositoryError::NotFound(id)
                && final(self).labels() == old(self).labels(),
    ;
}

/// Whether some label in the sequence carries the given name.
pub open spec fn has_label_name(labels: Seq<LabelView>, name: Seq<char>) -> bool {
    exists|i: int| 0 <= i < labels.len() && labels[i].name == name
}

/// The id of the label carrying the given name (any witness; names are
/// unique in a well-formed store, so it is determined there).
pub open spec fn label_id_of_name(labels: Seq<LabelView>, name: Seq<char>) -> int {
    labels[choose|i: int| 0 <= i < labels.len() && labels[i].name == name].id
}

/// Whether some label in the sequence carries the given id.
pub open spec fn has_label_id(labels: Seq<LabelView>, id: int) -> bool {
    exists|i: int| 0 <= i < labels.len() && labels[i].id == id
}

/// The label carrying the given id (any witness; ids are unique in a
/// well-formed store, so it is determined there).
pub open spec fn label_of_id(labels: Seq<LabelView>, id: int) -> LabelView {
    labels[choose|i: int| 0 <= i < labels.len() && labels[i].id == id]
}

/// Keeping the labels whose id differs from the given one.
pub open spec fn other_label(id: int) -> spec_fn(LabelView) -> bool {
    |l: LabelView| l.id != id
}

/// The sequence with every label of the given id dropped.
pub open spec fn remove_label(labels: Seq<LabelView>, id: int) -> Seq<LabelView> {
    labels.filter(other_label(id))
}

} // verus!
