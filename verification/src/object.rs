//! Typed object identities, the preconditions a prepared action observed,
//! and the per-object version index they are read from.

use vstd::prelude::*;

use std::collections::HashMap;

use crate::command::{
    command_effect, key_list, lemma_keys_of, staged, CadCommand, CommandTransaction, CadDocument, EntityRecord,
    EntityShape, EntityView, DocumentView, ParameterRecord,
};
use crate::constraint::{ConstraintKind, SketchConstraint};
use crate::expression::{ParameterExpression, check_source, expression_names, utf8};
use crate::keyed::{entries, entry_refs};
use crate::text::str_equal;
use crate::{CommitId, ConstraintId, EntityId, LayerId, ParameterId};

verus! {

/// A typed identity in the current compatibility model.
///
/// IDs are document-local integers; the kind keeps layer, entity, parameter,
/// and constraint numbers from colliding.
#[derive(Clone, Copy, Debug, PartialEq, Eq, PartialOrd, Ord, Hash, Structural)]
pub enum ObjectId {
    Layer(LayerId),
    Entity(EntityId),
    Parameter(ParameterId),
    Constraint(ConstraintId),
}

impl ObjectId {
    /// Position of the kind in declaration order.
    pub open spec fn kind_rank(self) -> int {
        match self {
            ObjectId::Layer(_) => 0,
            ObjectId::Entity(_) => 1,
            ObjectId::Parameter(_) => 2,
            ObjectId::Constraint(_) => 3,
        }
    }

    pub open spec fn number(self) -> u64 {
        match self {
            ObjectId::Layer(id) => id,
            ObjectId::Entity(id) => id,
            ObjectId::Parameter(id) => id,
            ObjectId::Constraint(id) => id,
        }
    }

    /// The order `derive(Ord)` gives: by kind, then by number.
    pub open spec fn precedes(self, other: ObjectId) -> bool {
        self.kind_rank() < other.kind_rank() || (self.kind_rank() == other.kind_rank()
            && self.number() < other.number())
    }

    pub fn less(&self, other: &ObjectId) -> (r: bool)
        ensures
            r == self.precedes(*other),
    {
        let (ka, na) = self.parts();
        let (kb, nb) = other.parts();
        ka < kb || (ka == kb && na < nb)
    }

    pub fn parts(&self) -> (r: (u8, u64))
        ensures
            r.0 == self.kind_rank(),
            r.1 == self.number(),
    {
        match self {
            ObjectId::Layer(id) => (0, *id),
            ObjectId::Entity(id) => (1, *id),
            ObjectId::Parameter(id) => (2, *id),
            ObjectId::Constraint(id) => (3, *id),
        }
    }
}

pub proof fn lemma_object_order(a: ObjectId, b: ObjectId)
    ensures
        a.precedes(b) || b.precedes(a) || a == b,
        !(a.precedes(b) && b.precedes(a)),
        !a.precedes(a),
{
}

pub proof fn lemma_object_order_transitive(a: ObjectId, b: ObjectId, c: ObjectId)
    requires
        a.precedes(b),
        b.precedes(c),
    ensures
        a.precedes(c),
{
}

/// Strictly increasing in object order.
pub open spec fn objects_increasing(s: Seq<ObjectId>) -> bool {
    forall|i: int, j: int| 0 <= i < j < s.len() ==> (#[trigger] s[i]).precedes(#[trigger] s[j])
}

/// Inserts `object` into a strictly increasing list unless it is already there
/// (the behaviour of `BTreeSet::insert`).
pub fn insert_object(objects: &mut Vec<ObjectId>, object: ObjectId)
    requires
        objects_increasing(old(objects)@),
    ensures
        objects_increasing(final(objects)@),
        final(objects)@.to_set() == old(objects)@.to_set().insert(object),
{
    let ghost before = objects@;
    let mut k: usize = 0;
    while k < objects.len() && objects[k].less(&object)
        invariant
            k <= objects@.len(),
            objects@ == before,
            forall|j: int| 0 <= j < k ==> (#[trigger] before[j]).precedes(object),
        decreases objects@.len() - k,
    {
        k += 1;
    }
    if k < objects.len() && objects[k] == object {
        proof {
            assert(before.to_set().insert(object) =~= before.to_set()) by {
                assert(before[k as int] == object);
            }
        }
        return;
    }
    proof {
        if k < before.len() {
            lemma_object_order(before[k as int], object);
        }
    }
    objects.insert(k, object);
    proof {
        let s = objects@;
        assert(s == before.insert(k as int, object));
        assert forall|i: int, j: int| 0 <= i < j < s.len() implies (#[trigger] s[i]).precedes(
            #[trigger] s[j],
        ) by {
            if i < k && j == k {
            } else if i == k {
                assert(s[j] == before[j - 1]);
                if j - 1 > k {
                    lemma_object_order_transitive(object, before[k as int], before[j - 1]);
                }
            } else if i < k && j < k {
                assert(s[i] == before[i]);
                assert(s[j] == before[j]);
            } else if i < k {
                assert(s[i] == before[i]);
                assert(s[j] == before[j - 1]);
            } else {
                assert(s[i] == before[i - 1]);
                assert(s[j] == before[j - 1]);
            }
        }
        assert forall|x: ObjectId| s.to_set().contains(x) <==> before.to_set().insert(
            object,
        ).contains(x) by {
            if s.contains(x) {
                let i = choose|i: int| 0 <= i < s.len() && s[i] == x;
                if i < k {
                    assert(before[i] == x);
                } else if i > k {
                    assert(before[i - 1] == x);
                }
            }
            if before.contains(x) {
                let i = choose|i: int| 0 <= i < before.len() && before[i] == x;
                if i < k {
                    assert(s[i] == x);
                } else {
                    assert(s[i + 1] == x);
                }
            }
            if x == object {
                assert(s[k as int] == x);
            }
        }
        assert(s.to_set() =~= before.to_set().insert(object));
    }
}

/// The state a prepared operation observed for one object.
///
/// `last_modified_revision` stays set for deleted objects, so a delete and a
/// recreation cannot satisfy an older precondition.
#[derive(Clone, Copy, Debug, PartialEq, Eq, Structural)]
pub struct ObjectPrecondition {
    pub object: ObjectId,
    pub exists: bool,
    pub last_modified_revision: Option<CommitId>,
}

/// What an object index says of an object it has never seen.
pub open spec fn unseen(object: ObjectId) -> ObjectPrecondition {
    ObjectPrecondition { object, exists: false, last_modified_revision: None }
}

/// The last known state of every object that a history has touched, one
/// table per object kind, keyed by the object's number.
pub struct ObjectVersionIndex {
    layers: HashMap<u64, ObjectPrecondition>,
    entities: HashMap<u64, ObjectPrecondition>,
    parameters: HashMap<u64, ObjectPrecondition>,
    constraints: HashMap<u64, ObjectPrecondition>,
}

impl ObjectVersionIndex {
    pub closed spec fn table(self, object: ObjectId) -> Map<u64, ObjectPrecondition> {
        match object {
            ObjectId::Layer(_) => self.layers@,
            ObjectId::Entity(_) => self.entities@,
            ObjectId::Parameter(_) => self.parameters@,
            ObjectId::Constraint(_) => self.constraints@,
        }
    }
}

impl View for ObjectVersionIndex {
    type V = Map<ObjectId, ObjectPrecondition>;

    closed spec fn view(&self) -> Map<ObjectId, ObjectPrecondition> {
        Map::new(
            |o: ObjectId| self.table(o).contains_key(o.number()),
            |o: ObjectId| self.table(o)[o.number()],
        )
    }
}

impl ObjectVersionIndex {
    /// Every entry describes the object it is recorded for.
    pub closed spec fn well_formed(&self) -> bool {
        forall|o: ObjectId| #[trigger]
            self.table(o).contains_key(o.number()) ==> self.table(o)[o.number()].object == o
    }

    /// What the index records for `object`, or `unseen` when nothing is recorded.
    pub open spec fn state_of(self, object: ObjectId) -> ObjectPrecondition {
        if self@.contains_key(object) {
            self@[object]
        } else {
            unseen(object)
        }
    }

    /// An empty index.
    pub fn new() -> (index: Self)
        ensures
            index.well_formed(),
            index@ == Map::<ObjectId, ObjectPrecondition>::empty(),
    {
        let index = ObjectVersionIndex {
            layers: HashMap::new(),
            entities: HashMap::new(),
            parameters: HashMap::new(),
            constraints: HashMap::new(),
        };
        proof {
            assert(index@ =~= Map::<ObjectId, ObjectPrecondition>::empty());
        }
        index
    }

    /// The observed state of `object`.
    pub fn precondition(&self, object: ObjectId) -> (p: ObjectPrecondition)
        requires
            self.well_formed(),
        ensures
            p == self.state_of(object),
            p.object == object,
    {
        broadcast use vstd::std_specs::hash::group_hash_axioms;

        let found = match object {
            ObjectId::Layer(id) => self.layers.get(&id),
            ObjectId::Entity(id) => self.entities.get(&id),
            ObjectId::Parameter(id) => self.parameters.get(&id),
            ObjectId::Constraint(id) => self.constraints.get(&id),
        };
        match found {
            Some(p) => *p,
            None => ObjectPrecondition { object, exists: false, last_modified_revision: None },
        }
    }

    /// Records that `object` exists (or not) as of `revision`.
    pub fn mark(&mut self, object: ObjectId, exists: bool, revision: CommitId)
        requires
            old(self).well_formed(),
        ensures
            final(self).well_formed(),
            final(self)@ == old(self)@.insert(
                object,
                ObjectPrecondition { object, exists, last_modified_revision: Some(revision) },
            ),
    {
        broadcast use vstd::std_specs::hash::group_hash_axioms;

        let entry = ObjectPrecondition { object, exists, last_modified_revision: Some(revision) };
        match object {
            ObjectId::Layer(id) => {
                self.layers.insert(id, entry);
            },
            ObjectId::Entity(id) => {
                self.entities.insert(id, entry);
            },
            ObjectId::Parameter(id) => {
                self.parameters.insert(id, entry);
            },
            ObjectId::Constraint(id) => {
                self.constraints.insert(id, entry);
            },
        }
        proof {
            assert(self@ =~= old(self)@.insert(object, entry));
            assert forall|o: ObjectId| #[trigger]
                self.table(o).contains_key(o.number()) implies self.table(o)[o.number()].object
                == o by {
                if o != object {
                    assert(old(self).table(o).contains_key(o.number()));
                }
            }
        }
    }
}

// ---------------------------------------------------------------------------
// Objects written by a transaction
// ---------------------------------------------------------------------------

/// The object a command writes and whether it exists afterwards.
pub open spec fn command_write(c: CadCommand) -> (ObjectId, bool) {
    match c {
        CadCommand::CreateLayer { layer } => (ObjectId::Layer(layer.id), true),
        CadCommand::UpdateLayer { layer } => (ObjectId::Layer(layer.id), true),
        CadCommand::DeleteLayer { id } => (ObjectId::Layer(id), false),
        CadCommand::CreateEntity { entity } => (ObjectId::Entity(entity.id), true),
        CadCommand::UpdateEntity { entity } => (ObjectId::Entity(entity.id), true),
        CadCommand::DeleteEntity { id } => (ObjectId::Entity(id), false),
        CadCommand::SetParameter { parameter } => (ObjectId::Parameter(parameter.id), true),
        CadCommand::DeleteParameter { id } => (ObjectId::Parameter(id), false),
        CadCommand::CreateConstraint { constraint, .. } => (
            ObjectId::Constraint(constraint.id),
            true,
        ),
        CadCommand::UpdateConstraint { constraint, .. } => (
            ObjectId::Constraint(constraint.id),
            true,
        ),
        CadCommand::DeleteConstraint { id } => (ObjectId::Constraint(id), false),
    }
}

fn command_write_exec(c: &CadCommand) -> (w: (ObjectId, bool))
    ensures
        w == command_write(*c),
{
    match c {
        CadCommand::CreateLayer { layer } | CadCommand::UpdateLayer { layer } => (
            ObjectId::Layer(layer.id),
            true,
        ),
        CadCommand::DeleteLayer { id } => (ObjectId::Layer(*id), false),
        CadCommand::CreateEntity { entity } | CadCommand::UpdateEntity { entity } => (
            ObjectId::Entity(entity.id),
            true,
        ),
        CadCommand::DeleteEntity { id } => (ObjectId::Entity(*id), false),
        CadCommand::SetParameter { parameter } => (ObjectId::Parameter(parameter.id), true),
        CadCommand::DeleteParameter { id } => (ObjectId::Parameter(*id), false),
        CadCommand::CreateConstraint { constraint, .. }
        | CadCommand::UpdateConstraint { constraint, .. } => (
            ObjectId::Constraint(constraint.id),
            true,
        ),
        CadCommand::DeleteConstraint { id } => (ObjectId::Constraint(*id), false),
    }
}

/// The objects a transaction writes, each once, in object order.
pub fn transaction_writes(transaction: &CommandTransaction) -> (writes: Vec<ObjectId>)
    ensures
        objects_increasing(writes@),
        writes@.to_set() == Set::new(
            |o: ObjectId|
                exists|i: int|
                    0 <= i < transaction.commands@.len() && command_write(
                        #[trigger] transaction.commands@[i],
                    ).0 == o,
        ),
{
    let commands = &transaction.commands;
    let mut writes: Vec<ObjectId> = Vec::new();
    let mut i: usize = 0;
    while i < commands.len()
        invariant
            i <= commands@.len(),
            commands == &transaction.commands,
            objects_increasing(writes@),
            writes@.to_set() == Set::new(
                |o: ObjectId|
                    exists|k: int| 0 <= k < i && command_write(#[trigger] commands@[k]).0 == o,
            ),
        decreases commands@.len() - i,
    {
        let (object, _) = command_write_exec(&commands[i]);
        insert_object(&mut writes, object);
        proof {
            assert(writes@.to_set() =~= Set::new(
                |o: ObjectId|
                    exists|k: int| 0 <= k < i + 1 && command_write(#[trigger] commands@[k]).0 == o,
            )) by {
                assert(command_write(commands@[i as int]).0 == object);
            }
        }
        i += 1;
    }
    writes
}

/// Every object of document `d`.
pub open spec fn document_objects(d: DocumentView) -> Set<ObjectId> {
    Set::new(
        |o: ObjectId|
            match o {
                ObjectId::Layer(k) => d.layers.contains_key(k),
                ObjectId::Entity(k) => d.entities.contains_key(k),
                ObjectId::Parameter(k) => d.parameters.contains_key(k),
                ObjectId::Constraint(k) => d.constraints.contains_key(k),
            },
    )
}

/// Appends one object per key of `ids` to `objects`.
fn push_objects(objects: &mut Vec<ObjectId>, ids: &Vec<u64>, kind: u8)
    requires
        kind < 4,
    ensures
        final(objects)@ == old(objects)@ + ids@.map_values(|k: u64| object_of(kind, k)),
{
    let ghost start = objects@;
    let mut i: usize = 0;
    while i < ids.len()
        invariant
            i <= ids@.len(),
            kind < 4,
            objects@ == start + ids@.take(i as int).map_values(|k: u64| object_of(kind, k)),
        decreases ids@.len() - i,
    {
        let object = if kind == 0 {
            ObjectId::Layer(ids[i])
        } else if kind == 1 {
            ObjectId::Entity(ids[i])
        } else if kind == 2 {
            ObjectId::Parameter(ids[i])
        } else {
            ObjectId::Constraint(ids[i])
        };
        objects.push(object);
        proof {
            assert(ids@.take(i + 1).map_values(|k: u64| object_of(kind, k)) =~= ids@.take(
                i as int,
            ).map_values(|k: u64| object_of(kind, k)).push(object));
        }
        i += 1;
    }
    proof {
        assert(ids@.take(ids@.len() as int) =~= ids@);
    }
}

/// The object of kind `kind` (layer, entity, parameter, constraint) numbered `k`.
pub open spec fn object_of(kind: u8, k: u64) -> ObjectId {
    if kind == 0 {
        ObjectId::Layer(k)
    } else if kind == 1 {
        ObjectId::Entity(k)
    } else if kind == 2 {
        ObjectId::Parameter(k)
    } else {
        ObjectId::Constraint(k)
    }
}

impl ObjectVersionIndex {
    /// The index of a root document: every object of the document exists as of
    /// revision 0.
    pub fn from_root(document: &CadDocument) -> (index: Self)
        ensures
            index.well_formed(),
            forall|o: ObjectId| #[trigger] index@.contains_key(o) <==> document_objects(document@).contains(o),
            forall|o: ObjectId|
                #![trigger index@[o]]
                index@.contains_key(o) ==> index@[o] == (ObjectPrecondition {
                    object: o,
                    exists: true,
                    last_modified_revision: Some(0),
                }),
    {
        let layer_ids = key_list(&document.layers);
        let entity_ids = key_list(&document.entities);
        let parameter_ids = key_list(&document.parameters);
        let constraint_ids = key_list(&document.constraints);
        let mut objects: Vec<ObjectId> = Vec::new();
        push_objects(&mut objects, &layer_ids, 0);
        push_objects(&mut objects, &entity_ids, 1);
        push_objects(&mut objects, &parameter_ids, 2);
        push_objects(&mut objects, &constraint_ids, 3);
        proof {
            let d = document@;
            lemma_keys_of(document.layers@);
            lemma_keys_of(document.entities@);
            lemma_keys_of(document.parameters@);
            lemma_keys_of(document.constraints@);
            let ls = layer_ids@.map_values(|k: u64| object_of(0, k));
            let es = entity_ids@.map_values(|k: u64| object_of(1, k));
            let ps = parameter_ids@.map_values(|k: u64| object_of(2, k));
            let cs = constraint_ids@.map_values(|k: u64| object_of(3, k));
            assert(objects@ == ls + es + ps + cs);
            assert forall|o: ObjectId| objects@.contains(o) <==> document_objects(d).contains(o) by {
                match o {
                    ObjectId::Layer(k) => {
                        if d.layers.contains_key(k) {
                            assert(layer_ids@.contains(k));
                            let i = choose|i: int| 0 <= i < layer_ids@.len() && layer_ids@[i] == k;
                            assert(ls[i] == o);
                            assert(objects@[i] == ls[i]);
                        }
                        if objects@.contains(o) {
                            let i = choose|i: int| 0 <= i < objects@.len() && objects@[i] == o;
                            if i < ls.len() {
                                assert(layer_ids@.contains(layer_ids@[i]));
                            }
                        }
                    },
                    ObjectId::Entity(k) => {
                        if d.entities.contains_key(k) {
                            assert(document.entities@.contains_key(k));
                            assert(entity_ids@.contains(k));
                            let i = choose|i: int| 0 <= i < entity_ids@.len() && entity_ids@[i] == k;
                            assert(es[i] == o);
                            assert(objects@[ls.len() + i] == es[i]);
                        }
                        if objects@.contains(o) {
                            let i = choose|i: int| 0 <= i < objects@.len() && objects@[i] == o;
                            if ls.len() <= i < ls.len() + es.len() {
                                assert(entity_ids@.contains(entity_ids@[i - ls.len()]));
                            }
                        }
                    },
                    ObjectId::Parameter(k) => {
                        if d.parameters.contains_key(k) {
                            assert(parameter_ids@.contains(k));
                            let i = choose|i: int| 0 <= i < parameter_ids@.len() && parameter_ids@[i] == k;
                            assert(ps[i] == o);
                            assert(objects@[ls.len() + es.len() + i] == ps[i]);
                        }
                        if objects@.contains(o) {
                            let i = choose|i: int| 0 <= i < objects@.len() && objects@[i] == o;
                            if ls.len() + es.len() <= i < ls.len() + es.len() + ps.len() {
                                assert(parameter_ids@.contains(parameter_ids@[i - ls.len() - es.len()]));
                            }
                        }
                    },
                    ObjectId::Constraint(k) => {
                        if d.constraints.contains_key(k) {
                            assert(constraint_ids@.contains(k));
                            let i = choose|i: int| 0 <= i < constraint_ids@.len() && constraint_ids@[i] == k;
                            assert(cs[i] == o);
                            assert(objects@[ls.len() + es.len() + ps.len() + i] == cs[i]);
                        }
                        if objects@.contains(o) {
                            let i = choose|i: int| 0 <= i < objects@.len() && objects@[i] == o;
                            if ls.len() + es.len() + ps.len() <= i {
                                assert(constraint_ids@.contains(constraint_ids@[i - ls.len() - es.len() - ps.len()]));
                            }
                        }
                    },
                }
            }
        }
        Self::from_objects(&objects)
    }

    /// The index in which each of `objects` exists as of revision 0.
    fn from_objects(objects: &Vec<ObjectId>) -> (index: Self)
        ensures
            index.well_formed(),
            forall|o: ObjectId| #[trigger] index@.contains_key(o) <==> objects@.contains(o),
            forall|o: ObjectId|
                #![trigger index@[o]]
                index@.contains_key(o) ==> index@[o] == (ObjectPrecondition {
                    object: o,
                    exists: true,
                    last_modified_revision: Some(0),
                }),
    {
        let mut index = ObjectVersionIndex::new();
        let mut i: usize = 0;
        while i < objects.len()
            invariant
                i <= objects@.len(),
                index.well_formed(),
                forall|o: ObjectId|
                    #[trigger] index@.contains_key(o) <==> objects@.take(i as int).contains(o),
                forall|o: ObjectId|
                    #![trigger index@[o]]
                    index@.contains_key(o) ==> index@[o] == (ObjectPrecondition {
                        object: o,
                        exists: true,
                        last_modified_revision: Some(0),
                    }),
            decreases objects@.len() - i,
        {
            index.mark(objects[i], true, 0);
            proof {
                let t = objects@.take(i + 1);
                assert(t =~= objects@.take(i as int).push(objects@[i as int]));
                assert forall|o: ObjectId| #[trigger] index@.contains_key(o) <==> t.contains(o) by {
                    if o == objects@[i as int] {
                        assert(t[i as int] == o);
                    } else if t.contains(o) {
                        let k = choose|k: int| 0 <= k < t.len() && t[k] == o;
                        assert(objects@.take(i as int)[k] == o);
                    }
                }
            }
            i += 1;
        }
        proof {
            assert(objects@.take(objects@.len() as int) =~= objects@);
        }
        index
    }

    /// Marks every object a transaction writes as of `revision`, in command order.
    pub fn apply_transaction(&mut self, revision: CommitId, transaction: &CommandTransaction)
        requires
            old(self).well_formed(),
        ensures
            final(self).well_formed(),
            final(self)@ == applied_writes(old(self)@, transaction.commands@, revision),
    {
        let commands = &transaction.commands;
        let mut i: usize = 0;
        while i < commands.len()
            invariant
                i <= commands@.len(),
                commands == &transaction.commands,
                self.well_formed(),
                self@ == applied_writes(old(self)@, commands@.take(i as int), revision),
            decreases commands@.len() - i,
        {
            let (object, exists) = command_write_exec(&commands[i]);
            self.mark(object, exists, revision);
            proof {
                assert(commands@.take(i + 1).drop_last() =~= commands@.take(i as int));
            }
            i += 1;
        }
        proof {
            assert(commands@.take(commands@.len() as int) =~= commands@);
        }
    }
}

/// The index after marking each command's write in turn.
pub open spec fn applied_writes(
    m: Map<ObjectId, ObjectPrecondition>,
    commands: Seq<CadCommand>,
    revision: CommitId,
) -> Map<ObjectId, ObjectPrecondition>
    decreases commands.len(),
{
    if commands.len() == 0 {
        m
    } else {
        let (object, exists) = command_write(commands.last());
        applied_writes(m, commands.drop_last(), revision).insert(
            object,
            ObjectPrecondition { object, exists, last_modified_revision: Some(revision) },
        )
    }
}

// ---------------------------------------------------------------------------
// Objects a transaction reads or writes
// ---------------------------------------------------------------------------

/// The document's parameters by name, in id order.
pub open spec fn parameter_names(d: DocumentView) -> Seq<(Seq<char>, ParameterId)> {
    entries(d.parameters).map_values(|e: (ParameterId, ParameterRecord)| (e.1.name@, e.1.id))
}

/// The id of `name` among `params` (the last entry wins, as when the list is
/// collected into a map).
pub open spec fn lookup_parameter(params: Seq<(Seq<char>, ParameterId)>, name: Seq<char>) -> Option<
    ParameterId,
>
    decreases params.len(),
{
    if params.len() == 0 {
        None
    } else if params.last().0 == name {
        Some(params.last().1)
    } else {
        lookup_parameter(params.drop_last(), name)
    }
}

fn lookup_parameter_exec(document: &CadDocument, name: &str) -> (r: Option<ParameterId>)
    ensures
        r == lookup_parameter(parameter_names(document@), name@),
{
    let all = entry_refs(&document.parameters);
    let ghost params = parameter_names(document@);
    let mut i = all.len();
    proof {
        assert(params.take(i as int) =~= params);
    }
    while i > 0
        invariant
            i <= all@.len(),
            all@.len() == entries(document.parameters@).len(),
            forall|j: int| 0 <= j < all@.len() ==> (#[trigger] all@[j]).0 == entries(document.parameters@)[j].0
                && *all@[j].1 == entries(document.parameters@)[j].1,
            params == parameter_names(document@),
            lookup_parameter(params, name@) == lookup_parameter(params.take(i as int), name@),
        decreases i,
    {
        proof {
            let t = params.take(i as int);
            assert(t.last() == params[i - 1]);
            assert(t.drop_last() =~= params.take(i - 1));
        }
        if str_equal(all[i - 1].1.name.as_str(), name) {
            return Some(all[i - 1].1.id);
        }
        i -= 1;
    }
    proof {
        assert(params.take(0).len() == 0);
    }
    None
}

/// Whether `name` is the document name of parameter object `o`.
pub open spec fn resolves_to(params: Seq<(Seq<char>, ParameterId)>, name: Seq<char>, o: ObjectId) -> bool {
    o is Parameter && lookup_parameter(params, name) == Some(o->Parameter_0)
}

/// The parameters an expression refers to, by the document's names.
pub open spec fn expression_objects(e: ParameterExpression, params: Seq<(Seq<char>, ParameterId)>) -> Set<
    ObjectId,
> {
    match check_source(e@) {
        Ok(tree) => Set::new(
            |o: ObjectId|
                exists|name: Seq<char>|
                    #[trigger] expression_names(tree, utf8(e@)).contains(name) && resolves_to(params, name, o),
        ),
        Err(_) => Set::empty(),
    }
}

/// Adds the parameters an expression refers to.
pub fn collect_expression_parameters(
    expression: &ParameterExpression,
    document: &CadDocument,
    objects: &mut Vec<ObjectId>,
)
    requires
        objects_increasing(old(objects)@),
    ensures
        objects_increasing(final(objects)@),
        final(objects)@.to_set() == old(objects)@.to_set().union(
            expression_objects(*expression, parameter_names(document@)),
        ),
{
    let ghost params = parameter_names(document@);
    match expression.dependencies() {
        Ok(names) => {
            let ghost tree = check_source(expression@)->Ok_0;
            let ghost start = objects@.to_set();
            let ghost target = Set::new(
                |o: ObjectId|
                    exists|k: int|
                        0 <= k < names@.len() && resolves_to(params, #[trigger] names@[k]@, o),
            );
            let mut i: usize = 0;
            while i < names.len()
                invariant
                    i <= names@.len(),
                    params == parameter_names(document@),
                    objects_increasing(objects@),
                    objects@.to_set() == start.union(
                        Set::new(
                            |o: ObjectId|
                                exists|k: int|
                                    0 <= k < i && resolves_to(params, #[trigger] names@[k]@, o),
                        ),
                    ),
                decreases names@.len() - i,
            {
                let found = lookup_parameter_exec(document, names[i].as_str());
                let ghost before = objects@.to_set();
                if let Some(id) = found {
                    insert_object(objects, ObjectId::Parameter(id));
                }
                proof {
                    let next = Set::new(
                        |o: ObjectId|
                            exists|k: int|
                                0 <= k < i + 1 && resolves_to(params, #[trigger] names@[k]@, o),
                    );
                    assert(objects@.to_set() =~= start.union(next)) by {
                        assert forall|o: ObjectId| #[trigger] next.contains(o) implies objects@.to_set().contains(o) by {
                            let k = choose|k: int|
                                0 <= k < i + 1 && resolves_to(params, #[trigger] names@[k]@, o);
                            if k < i {
                                assert(before.contains(o));
                            }
                        }
                    }
                }
                i += 1;
            }
            proof {
                let views = crate::expression::string_views(names@);
                assert(target =~= expression_objects(*expression, params)) by {
                    assert forall|o: ObjectId| target.contains(o) <==> expression_objects(
                        *expression,
                        params,
                    ).contains(o) by {
                        if target.contains(o) {
                            let k = choose|k: int|
                                0 <= k < names@.len() && resolves_to(params, #[trigger] names@[k]@, o);
                            assert(views[k] == names@[k]@);
                            assert(views.to_set().contains(names@[k]@));
                        }
                        if expression_objects(*expression, params).contains(o) {
                            let name = choose|name: Seq<char>|
                                #[trigger] expression_names(tree, utf8(expression@)).contains(name)
                                    && resolves_to(params, name, o);
                            assert(views.to_set().contains(name));
                            assert(views.contains(name));
                            let k = choose|k: int| 0 <= k < views.len() && views[k] == name;
                            assert(names@[k]@ == name);
                        }
                    }
                }
            }
        },
        Err(_) => {
            proof {
                assert(old(objects)@.to_set().union(expression_objects(*expression, params))
                    =~= old(objects)@.to_set());
            }
        },
    }
}

/// The parameter objects with the given ids.
pub open spec fn referenced_parameters(refs: Seq<ParameterId>) -> Set<ObjectId> {
    Set::new(|o: ObjectId| o is Parameter && refs.contains(o->Parameter_0))
}

/// The objects an entity touches: itself, its layer, the parameters it
/// references, and the profile it extrudes.
pub open spec fn entity_objects(e: EntityView) -> Set<ObjectId> {
    set![ObjectId::Entity(e.id), ObjectId::Layer(e.layer)].union(
        referenced_parameters(e.parameter_refs),
    ).union(
        match e.kind {
            EntityShape::Extrude { profile } => set![ObjectId::Entity(profile)],
            _ => Set::empty(),
        },
    )
}

fn collect_entity_objects(entity: &EntityRecord, objects: &mut Vec<ObjectId>)
    requires
        objects_increasing(old(objects)@),
    ensures
        objects_increasing(final(objects)@),
        final(objects)@.to_set() == old(objects)@.to_set().union(entity_objects(entity@)),
{
    insert_object(objects, ObjectId::Entity(entity.id));
    insert_object(objects, ObjectId::Layer(entity.layer));
    let ghost base = objects@.to_set();
    let mut i: usize = 0;
    proof {
        assert(referenced_parameters(entity.parameter_refs@.take(0)) =~= Set::<ObjectId>::empty());
        assert(objects@.to_set() =~= base.union(Set::<ObjectId>::empty()));
    }
    while i < entity.parameter_refs.len()
        invariant
            i <= entity.parameter_refs@.len(),
            objects_increasing(objects@),
            objects@.to_set() == base.union(
                referenced_parameters(entity.parameter_refs@.take(i as int)),
            ),
        decreases entity.parameter_refs@.len() - i,
    {
        insert_object(objects, ObjectId::Parameter(entity.parameter_refs[i]));
        proof {
            let refs = entity.parameter_refs@;
            let t = refs.take(i + 1);
            assert(t =~= refs.take(i as int).push(refs[i as int]));
            assert(referenced_parameters(t) =~= referenced_parameters(refs.take(i as int)).insert(
                ObjectId::Parameter(refs[i as int]),
            )) by {
                assert forall|o: ObjectId| referenced_parameters(t).contains(o) <==> referenced_parameters(refs.take(i as int)).insert(ObjectId::Parameter(refs[i as int])).contains(o) by {
                    if o is Parameter && t.contains(o->Parameter_0) {
                        let k = choose|k: int| 0 <= k < t.len() && t[k] == o->Parameter_0;
                        if k < i {
                            assert(refs.take(i as int)[k] == o->Parameter_0);
                        }
                    }
                    if o is Parameter && refs.take(i as int).contains(o->Parameter_0) {
                        let k = choose|k: int| 0 <= k < i && refs.take(i as int)[k] == o->Parameter_0;
                        assert(t[k] == o->Parameter_0);
                    }
                    if o == ObjectId::Parameter(refs[i as int]) {
                        assert(t[i as int] == refs[i as int]);
                    }
                }
            }
            assert(objects@.to_set() =~= base.union(referenced_parameters(t)));
        }
        i += 1;
    }
    proof {
        assert(entity.parameter_refs@.take(entity.parameter_refs@.len() as int)
            =~= entity.parameter_refs@);
    }
    if let EntityShape::Extrude { profile } = entity.kind {
        insert_object(objects, ObjectId::Entity(profile));
    }
    proof {
        assert(objects@.to_set() =~= old(objects)@.to_set().union(entity_objects(entity@)));
    }
}

/// The entities a constraint refers to.
pub open spec fn constraint_entities(kind: ConstraintKind) -> Set<ObjectId> {
    match kind {
        ConstraintKind::Coincident { first, second } => set![
            ObjectId::Entity(first.entity_id),
            ObjectId::Entity(second.entity_id),
        ],
        ConstraintKind::Distance { first, second, .. } => set![
            ObjectId::Entity(first.entity_id),
            ObjectId::Entity(second.entity_id),
        ],
        ConstraintKind::Horizontal { segment } => set![
            ObjectId::Entity(segment.start.entity_id),
            ObjectId::Entity(segment.end.entity_id),
        ],
        ConstraintKind::Vertical { segment } => set![
            ObjectId::Entity(segment.start.entity_id),
            ObjectId::Entity(segment.end.entity_id),
        ],
        ConstraintKind::Radius { entity_id, .. } => set![ObjectId::Entity(entity_id)],
    }
}

/// The objects a constraint touches: itself, its entities, and the
/// parameters its dimension refers to.
pub open spec fn constraint_objects(c: SketchConstraint, params: Seq<(Seq<char>, ParameterId)>) -> Set<
    ObjectId,
> {
    set![ObjectId::Constraint(c.id)].union(constraint_entities(c.kind)).union(
        match c.kind {
            ConstraintKind::Distance { value, .. } => expression_objects(value, params),
            ConstraintKind::Radius { value, .. } => expression_objects(value, params),
            _ => Set::empty(),
        },
    )
}

/// Adds the objects a constraint touches.
pub fn collect_constraint_objects(
    constraint: &SketchConstraint,
    document: &CadDocument,
    objects: &mut Vec<ObjectId>,
)
    requires
        objects_increasing(old(objects)@),
    ensures
        objects_increasing(final(objects)@),
        final(objects)@.to_set() == old(objects)@.to_set().union(
            constraint_objects(*constraint, parameter_names(document@)),
        ),
{
    insert_object(objects, ObjectId::Constraint(constraint.id));
    match &constraint.kind {
        ConstraintKind::Coincident { first, second } => {
            insert_object(objects, ObjectId::Entity(first.entity_id));
            insert_object(objects, ObjectId::Entity(second.entity_id));
        },
        ConstraintKind::Distance { first, second, value } => {
            insert_object(objects, ObjectId::Entity(first.entity_id));
            insert_object(objects, ObjectId::Entity(second.entity_id));
            collect_expression_parameters(value, document, objects);
        },
        ConstraintKind::Horizontal { segment } | ConstraintKind::Vertical { segment } => {
            insert_object(objects, ObjectId::Entity(segment.start.entity_id));
            insert_object(objects, ObjectId::Entity(segment.end.entity_id));
        },
        ConstraintKind::Radius { entity_id, value } => {
            insert_object(objects, ObjectId::Entity(*entity_id));
            collect_expression_parameters(value, document, objects);
        },
    }
    proof {
        assert(objects@.to_set() =~= old(objects)@.to_set().union(
            constraint_objects(*constraint, parameter_names(document@)),
        ));
    }
}

/// What the entity `id` of document `d` touched, if `d` has it.
pub open spec fn previous_entity_objects(d: DocumentView, id: EntityId) -> Set<ObjectId> {
    if d.entities.contains_key(id) {
        entity_objects(d.entities[id])
    } else {
        Set::empty()
    }
}

/// The objects one command reads or writes against the document it applies to.
pub open spec fn command_objects(c: CadCommand, d: DocumentView) -> Set<ObjectId> {
    match c {
        CadCommand::CreateLayer { layer } => set![ObjectId::Layer(layer.id)],
        CadCommand::UpdateLayer { layer } => set![ObjectId::Layer(layer.id)],
        CadCommand::DeleteLayer { id } => set![ObjectId::Layer(id)],
        CadCommand::CreateEntity { entity } => entity_objects(entity@),
        CadCommand::UpdateEntity { entity } => previous_entity_objects(d, entity.id).union(
            entity_objects(entity@),
        ),
        CadCommand::DeleteEntity { id } => set![ObjectId::Entity(id)].union(
            previous_entity_objects(d, id),
        ),
        CadCommand::SetParameter { parameter } => set![ObjectId::Parameter(parameter.id)].union(
            match parameter.expression {
                Some(e) => expression_objects(e, parameter_names(d)),
                None => Set::empty(),
            },
        ),
        CadCommand::DeleteParameter { id } => set![ObjectId::Parameter(id)],
        CadCommand::CreateConstraint { constraint, .. } => constraint_objects(
            constraint,
            parameter_names(d),
        ),
        CadCommand::UpdateConstraint { constraint, .. } => constraint_objects(
            constraint,
            parameter_names(d),
        ),
        CadCommand::DeleteConstraint { id } => set![ObjectId::Constraint(id)],
    }
}

/// Every object the commands read or write, each against document `d`.
pub open spec fn transaction_objects_spec(commands: Seq<CadCommand>, d: DocumentView) -> Set<ObjectId>
    decreases commands.len(),
{
    if commands.len() == 0 {
        Set::empty()
    } else {
        transaction_objects_spec(commands.drop_last(), d).union(
            command_objects(commands.last(), d),
        )
    }
}

/// The objects a transaction touches in the document it applies to, each
/// once, in object order.
pub fn transaction_objects(transaction: &CommandTransaction, document: &CadDocument) -> (objects:
    Vec<ObjectId>)
    ensures
        objects_increasing(objects@),
        objects@.to_set() == transaction_objects_spec(transaction.commands@, document@),
{
    let commands = &transaction.commands;
    let mut objects: Vec<ObjectId> = Vec::new();
    let mut i: usize = 0;
    proof {
        assert(objects@.to_set() =~= Set::<ObjectId>::empty());
        assert(commands@.take(0).len() == 0);
    }
    while i < commands.len()
        invariant
            i <= commands@.len(),
            commands == &transaction.commands,
            objects_increasing(objects@),
            objects@.to_set() == transaction_objects_spec(commands@.take(i as int), document@),
        decreases commands@.len() - i,
    {
        let ghost before = objects@.to_set();
        match &commands[i] {
            CadCommand::CreateLayer { layer } | CadCommand::UpdateLayer { layer } => {
                insert_object(&mut objects, ObjectId::Layer(layer.id));
            },
            CadCommand::DeleteLayer { id } => {
                insert_object(&mut objects, ObjectId::Layer(*id));
            },
            CadCommand::CreateEntity { entity } => {
                collect_entity_objects(entity, &mut objects);
            },
            CadCommand::UpdateEntity { entity } => {
                if let Some(previous) = document.entities.get(&entity.id) {
                    proof {
                        assert(document@.entities[entity.id] == previous@);
                    }
                    collect_entity_objects(previous, &mut objects);
                }
                collect_entity_objects(entity, &mut objects);
            },
            CadCommand::DeleteEntity { id } => {
                insert_object(&mut objects, ObjectId::Entity(*id));
                if let Some(previous) = document.entities.get(id) {
                    proof {
                        assert(document@.entities[*id] == previous@);
                    }
                    collect_entity_objects(previous, &mut objects);
                }
            },
            CadCommand::SetParameter { parameter } => {
                insert_object(&mut objects, ObjectId::Parameter(parameter.id));
                if let Some(expression) = &parameter.expression {
                    collect_expression_parameters(expression, document, &mut objects);
                }
            },
            CadCommand::DeleteParameter { id } => {
                insert_object(&mut objects, ObjectId::Parameter(*id));
            },
            CadCommand::CreateConstraint { constraint, .. }
            | CadCommand::UpdateConstraint { constraint, .. } => {
                collect_constraint_objects(constraint, document, &mut objects);
            },
            CadCommand::DeleteConstraint { id } => {
                insert_object(&mut objects, ObjectId::Constraint(*id));
            },
        }
        proof {
            let t = commands@.take(i + 1);
            assert(t.drop_last() =~= commands@.take(i as int));
            assert(t.last() == commands@[i as int]);
            assert(objects@.to_set() =~= before.union(command_objects(commands@[i as int], document@)));
        }
        i += 1;
    }
    proof {
        assert(commands@.take(commands@.len() as int) =~= commands@);
    }
    objects
}

/// The object a command writes is recorded as existing exactly when the
/// document the command produces holds it.
pub proof fn law_write_records_presence(c: CadCommand, d: DocumentView)
    ensures
        command_write(c).1 == document_objects(command_effect(c, d)).contains(command_write(c).0),
{
}

/// A command leaves the presence of every object but the one it writes as it
/// was.
pub proof fn law_command_touches_only_its_object(c: CadCommand, d: DocumentView, o: ObjectId)
    requires
        o != command_write(c).0,
    ensures
        document_objects(command_effect(c, d)).contains(o) == document_objects(d).contains(o),
{
}

/// After a transaction accepted command by command, the index records each
/// object the transaction wrote as modified at its revision, and as existing
/// exactly when the document the transaction leaves holds it.
pub proof fn law_index_follows_the_staged_document(
    m: Map<ObjectId, ObjectPrecondition>,
    cs: Seq<CadCommand>,
    d: DocumentView,
    revision: CommitId,
    o: ObjectId,
)
    requires
        staged(cs, d) is Ok,
        exists|k: int| 0 <= k < cs.len() && (#[trigger] command_write(cs[k])).0 == o,
    ensures
        applied_writes(m, cs, revision).contains_key(o),
        applied_writes(m, cs, revision)[o].last_modified_revision == Some(revision),
        staged(cs, d) matches Ok((after, _)) && applied_writes(m, cs, revision)[o].exists == document_objects(
            after,
        ).contains(o),
    decreases cs.len(),
{
    let last = cs.last();
    let rest = cs.drop_last();
    if let Ok((d1, _)) = staged(rest, d) {
        law_write_records_presence(last, d1);
        if command_write(last).0 != o {
            let k = choose|k: int| 0 <= k < cs.len() && (#[trigger] command_write(cs[k])).0 == o;
            assert(k < rest.len());
            assert(rest[k] == cs[k]);
            law_index_follows_the_staged_document(m, rest, d, revision, o);
            law_command_touches_only_its_object(last, d1, o);
        }
    }
}

} // verus!
