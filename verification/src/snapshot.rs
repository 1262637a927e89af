//! An immutable view of one document revision, with the object versions
//! that preconditions are read from.

use vstd::prelude::*;

use crate::command::{CadDocument, CommandTransaction, DocumentView, present_domains};
use crate::document::DocumentSummary;
use crate::object::{
    objects_increasing, transaction_objects, transaction_objects_spec, ObjectId,
    ObjectPrecondition, ObjectVersionIndex,
};
use crate::CommitId;

verus! {

/// One authoritative document revision, for planners, renderers and queries
/// to read without touching the workspace's writable document.
pub struct DocumentSnapshot {
    revision: CommitId,
    document: CadDocument,
    object_versions: ObjectVersionIndex,
}

impl DocumentSnapshot {
    #[verifier::type_invariant]
    spec fn versions_well_formed(self) -> bool {
        self.object_versions.well_formed()
    }

    pub closed spec fn revision_spec(self) -> CommitId {
        self.revision
    }

    pub closed spec fn document_spec(self) -> DocumentView {
        self.document@
    }

    pub closed spec fn versions_spec(self) -> ObjectVersionIndex {
        self.object_versions
    }

    pub fn new(revision: CommitId, document: CadDocument, object_versions: ObjectVersionIndex) -> (s:
        Self)
        requires
            object_versions.well_formed(),
        ensures
            s.revision_spec() == revision,
            s.document_spec() == document@,
            s.versions_spec() == object_versions,
    {
        DocumentSnapshot { revision, document, object_versions }
    }

    pub fn revision(&self) -> (r: CommitId)
        ensures
            r == self.revision_spec(),
    {
        self.revision
    }

    pub fn document(&self) -> (d: &CadDocument)
        ensures
            d@ == self.document_spec(),
    {
        &self.document
    }

    /// The document's summary.
    pub fn summary(&self) -> (s: DocumentSummary)
        ensures
            s.title@ == self.document_spec().metadata.title@,
            s.entity_count == self.document_spec().entities.dom().len(),
            s.layer_count == self.document_spec().layers.dom().len(),
            s.domains@ == present_domains(self.document_spec()),
    {
        self.document.summary()
    }

    /// What the revision records of `object`.
    pub fn object_precondition(&self, object: ObjectId) -> (p: ObjectPrecondition)
        ensures
            p == self.versions_spec().state_of(object),
            p.object == object,
    {
        proof {
            use_type_invariant(self);
        }
        self.object_versions.precondition(object)
    }

    /// The recorded state of every object `transaction` reads or writes in
    /// this revision, in object order.
    pub fn preconditions_for(&self, transaction: &CommandTransaction) -> (r: Vec<ObjectPrecondition>)
        ensures
            objects_increasing(r@.map_values(|p: ObjectPrecondition| p.object)),
            r@.map_values(|p: ObjectPrecondition| p.object).to_set() == transaction_objects_spec(
                transaction.commands@,
                self.document_spec(),
            ),
            forall|i: int| 0 <= i < r@.len() ==> #[trigger] r@[i] == self.versions_spec().state_of(
                r@[i].object,
            ),
    {
        let objects = transaction_objects(transaction, &self.document);
        let mut r: Vec<ObjectPrecondition> = Vec::new();
        let mut i: usize = 0;
        while i < objects.len()
            invariant
                i <= objects@.len(),
                r@.len() == i,
                forall|j: int| 0 <= j < i ==> (#[trigger] r@[j]).object == objects@[j] && r@[j]
                    == self.versions_spec().state_of(objects@[j]),
            decreases objects@.len() - i,
        {
            r.push(self.object_precondition(objects[i]));
            i += 1;
        }
        proof {
            assert(r@.map_values(|p: ObjectPrecondition| p.object) =~= objects@);
        }
        r
    }
}


/// The first of `expected`, from position `i` on, that the index
/// contradicts, with what the index records of that object.
pub open spec fn first_conflict(versions: ObjectVersionIndex, expected: Seq<ObjectPrecondition>, i: int) -> Option<
    (ObjectPrecondition, ObjectPrecondition),
>
    decreases expected.len() - i,
{
    if i < 0 || i >= expected.len() {
        None
    } else if expected[i] != versions.state_of(expected[i].object) {
        Some((expected[i], versions.state_of(expected[i].object)))
    } else {
        first_conflict(versions, expected, i + 1)
    }
}

impl DocumentSnapshot {
    /// The first precondition of `expected` that this revision no longer
    /// meets, with the state the revision records of its object.
    pub fn conflicting_precondition(&self, expected: &[ObjectPrecondition]) -> (r: Option<
        (ObjectPrecondition, ObjectPrecondition),
    >)
        ensures
            r == first_conflict(self.versions_spec(), expected@, 0),
    {
        let mut i: usize = 0;
        while i < expected.len()
            invariant
                i <= expected@.len(),
                first_conflict(self.versions_spec(), expected@, 0) == first_conflict(
                    self.versions_spec(),
                    expected@,
                    i as int,
                ),
            decreases expected@.len() - i,
        {
            let actual = self.object_precondition(expected[i].object);
            if expected[i] != actual {
                return Some((expected[i], actual));
            }
            i += 1;
        }
        None
    }
}

} // verus!
