//! The document's plain records (metadata, units, layers, summaries), its
//! command errors, id allocation, and the diff a transaction reports.

use vstd::prelude::*;

use crate::text::{
    decimal, is_blank, law_decimal_reads_zero, push_decimal, push_decimal_wide, push_str, str_is_blank, string_push, trim_range,
    trimmed,
};
use crate::{ConstraintId, EntityId, LayerId, ParameterId, CURRENT_SCHEMA_VERSION};

verus! {

pub struct DocumentMetadata {
    pub title: String,
    pub description: String,
}

impl DocumentMetadata {
    /// A field-for-field copy.
    pub fn copy(&self) -> (c: Self)
        ensures
            c == *self,
    {
        DocumentMetadata { title: self.title.clone(), description: self.description.clone() }
    }
}

#[derive(Clone, Copy, Debug, PartialEq, Eq, Structural)]
pub enum Units {
    Millimeters,
    Meters,
    Inches,
}

impl Default for Units {
    fn default() -> (u: Self)
        ensures
            u == Units::Millimeters,
    {
        Units::Millimeters
    }
}

pub struct Layer {
    pub id: LayerId,
    pub name: String,
    pub visible: bool,
    pub locked: bool,
    pub color: [u8; 4],
}

impl Layer {
    /// A field-for-field copy.
    pub fn copy(&self) -> (c: Layer)
        ensures
            c == *self,
    {
        Layer {
            id: self.id,
            name: self.name.clone(),
            visible: self.visible,
            locked: self.locked,
            color: self.color,
        }
    }
}

/// A drawing domain. The declaration order is the order domains sort in.
#[derive(Clone, Copy, Debug, PartialEq, Eq, PartialOrd, Ord, Hash, Structural)]
pub enum Domain {
    Drafting,
    Mechanical,
    Architecture,
}

impl Domain {
    pub open spec fn rank(self) -> int {
        match self {
            Domain::Drafting => 0,
            Domain::Mechanical => 1,
            Domain::Architecture => 2,
        }
    }
}

pub struct DocumentSummary {
    pub title: String,
    pub entity_count: usize,
    pub layer_count: usize,
    /// The domains present, each once, in domain order.
    pub domains: Vec<Domain>,
}

/// The domains of `kinds`, each once, in domain order.
pub open spec fn domain_set(kinds: Seq<Domain>) -> Seq<Domain> {
    seq![Domain::Drafting, Domain::Mechanical, Domain::Architecture].filter(
        |d: Domain| kinds.contains(d),
    )
}

/// The distinct domains among `kinds`, in domain order.
pub fn distinct_domains(kinds: &[Domain]) -> (v: Vec<Domain>)
    ensures
        v@ == domain_set(kinds@),
{
    let mut has = [false, false, false];
    let mut i: usize = 0;
    while i < kinds.len()
        invariant
            i <= kinds@.len(),
            has@[0] == kinds@.take(i as int).contains(Domain::Drafting),
            has@[1] == kinds@.take(i as int).contains(Domain::Mechanical),
            has@[2] == kinds@.take(i as int).contains(Domain::Architecture),
        decreases kinds@.len() - i,
    {
        proof {
            let t = kinds@.take(i + 1);
            assert(t =~= kinds@.take(i as int).push(kinds@[i as int]));
            assert forall|d: Domain| t.contains(d) <==> (kinds@.take(i as int).contains(d) || d
                == kinds@[i as int]) by {
                if t.contains(d) {
                    let k = choose|k: int| 0 <= k < t.len() && t[k] == d;
                    if k < i {
                        assert(kinds@.take(i as int)[k] == d);
                    }
                }
                if kinds@.take(i as int).contains(d) {
                    let k = choose|k: int| 0 <= k < i && kinds@.take(i as int)[k] == d;
                    assert(t[k] == d);
                }
                if d == kinds@[i as int] {
                    assert(t[i as int] == d);
                }
            }
        }
        match kinds[i] {
            Domain::Drafting => {
                has[0] = true;
            },
            Domain::Mechanical => {
                has[1] = true;
            },
            Domain::Architecture => {
                has[2] = true;
            },
        }
        i += 1;
    }
    proof {
        assert(kinds@.take(kinds@.len() as int) =~= kinds@);
    }
    let mut v: Vec<Domain> = Vec::new();
    if has[0] {
        v.push(Domain::Drafting);
    }
    if has[1] {
        v.push(Domain::Mechanical);
    }
    if has[2] {
        v.push(Domain::Architecture);
    }
    proof {
        let all = seq![Domain::Drafting, Domain::Mechanical, Domain::Architecture];
        let p = |d: Domain| kinds@.contains(d);
        assert(all.take(0).filter(p) =~= Seq::<Domain>::empty());
        assert(all.take(1).drop_last() =~= all.take(0));
        assert(all.take(2).drop_last() =~= all.take(1));
        assert(all.take(3).drop_last() =~= all.take(2));
        assert(all.take(3) =~= all);
        reveal_with_fuel(Seq::filter, 4);
        assert(v@ =~= domain_set(kinds@));
    }
    v
}

impl DocumentSummary {
    /// The summary of a document titled `title` with `layer_count` layers and
    /// entities of the given domains.
    pub fn of(title: &str, entity_domains: &[Domain], layer_count: usize) -> (s: Self)
        ensures
            s.title@ == title@,
            s.entity_count == entity_domains@.len(),
            s.layer_count == layer_count,
            s.domains@ == domain_set(entity_domains@),
    {
        DocumentSummary {
            title: title.to_owned(),
            entity_count: entity_domains.len(),
            layer_count,
            domains: distinct_domains(entity_domains),
        }
    }
}

pub enum CommandError {
    LayerExists(LayerId),
    LayerMissing(LayerId),
    LayerLocked(LayerId),
    EntityExists(EntityId),
    EntityMissing(EntityId),
    ConstraintExists(ConstraintId),
    ConstraintMissing(ConstraintId),
    InvalidLayer(String),
    InvalidGeometry(String),
    InvalidParameter(String),
    InvalidConstraint(String),
    InvalidReference(String),
    InvalidDocument(String),
    UnsupportedSchemaVersion(u32),
}

/// What a command error says, with its text as characters.
pub enum CommandFault {
    LayerExists(LayerId),
    LayerMissing(LayerId),
    LayerLocked(LayerId),
    EntityExists(EntityId),
    EntityMissing(EntityId),
    ConstraintExists(ConstraintId),
    ConstraintMissing(ConstraintId),
    InvalidLayer(Seq<char>),
    InvalidGeometry(Seq<char>),
    InvalidParameter(Seq<char>),
    InvalidConstraint(Seq<char>),
    InvalidReference(Seq<char>),
    InvalidDocument(Seq<char>),
    UnsupportedSchemaVersion(u32),
}

impl View for CommandError {
    type V = CommandFault;

    open spec fn view(&self) -> CommandFault {
        match self {
            CommandError::LayerExists(id) => CommandFault::LayerExists(*id),
            CommandError::LayerMissing(id) => CommandFault::LayerMissing(*id),
            CommandError::LayerLocked(id) => CommandFault::LayerLocked(*id),
            CommandError::EntityExists(id) => CommandFault::EntityExists(*id),
            CommandError::EntityMissing(id) => CommandFault::EntityMissing(*id),
            CommandError::ConstraintExists(id) => CommandFault::ConstraintExists(*id),
            CommandError::ConstraintMissing(id) => CommandFault::ConstraintMissing(*id),
            CommandError::InvalidLayer(m) => CommandFault::InvalidLayer(m@),
            CommandError::InvalidGeometry(m) => CommandFault::InvalidGeometry(m@),
            CommandError::InvalidParameter(m) => CommandFault::InvalidParameter(m@),
            CommandError::InvalidConstraint(m) => CommandFault::InvalidConstraint(m@),
            CommandError::InvalidReference(m) => CommandFault::InvalidReference(m@),
            CommandError::InvalidDocument(m) => CommandFault::InvalidDocument(m@),
            CommandError::UnsupportedSchemaVersion(v) => CommandFault::UnsupportedSchemaVersion(*v),
        }
    }
}

/// Layer id a new document allocates next (layer 1 is created with it).
pub fn default_next_layer_id() -> (id: LayerId)
    ensures
        id == 2,
{
    2
}

pub fn default_next_entity_id() -> (id: EntityId)
    ensures
        id == 1,
{
    1
}

pub fn default_next_parameter_id() -> (id: ParameterId)
    ensures
        id == 1,
{
    1
}

pub fn default_next_constraint_id() -> (id: ConstraintId)
    ensures
        id == 1,
{
    1
}

/// The largest of `ids`, or `None` without ids.
pub open spec fn max_id(ids: Seq<u64>) -> Option<u64>
    decreases ids.len(),
{
    if ids.len() == 0 {
        None
    } else {
        match max_id(ids.drop_last()) {
            None => Some(ids.last()),
            Some(m) => Some(if m < ids.last() {
                ids.last()
            } else {
                m
            }),
        }
    }
}

pub proof fn lemma_max_id(ids: Seq<u64>)
    ensures
        max_id(ids) matches Some(m) ==> ids.contains(m) && forall|k: int|
            0 <= k < ids.len() ==> ids[k] <= m,
        max_id(ids) is None <==> ids.len() == 0,
    decreases ids.len(),
{
    if ids.len() > 0 {
        lemma_max_id(ids.drop_last());
        let m = max_id(ids).unwrap();
        assert forall|k: int| 0 <= k < ids.len() implies ids[k] <= m by {
            if k < ids.len() - 1 {
                assert(ids.drop_last()[k] == ids[k]);
            }
        }
        if m == ids.last() {
            assert(ids[ids.len() - 1] == m);
        } else {
            let j = choose|j: int| 0 <= j < ids.drop_last().len() && ids.drop_last()[j] == m;
            assert(ids[j] == m);
        }
    }
}

/// The id after the largest of `ids` (1 without ids), or an error when the
/// largest is `u64::MAX`.
pub open spec fn next_after(kind: Seq<char>, ids: Seq<u64>) -> Result<u64, Seq<char>> {
    match max_id(ids) {
        None => Ok(1),
        Some(m) => if m == u64::MAX {
            Err(kind + " id space is exhausted"@)
        } else {
            Ok((m + 1) as u64)
        },
    }
}

pub fn next_id_after(kind: &str, ids: &[u64]) -> (r: Result<u64, CommandError>)
    ensures
        match next_after(kind@, ids@) {
            Ok(n) => r == Ok::<u64, CommandError>(n),
            Err(m) => r matches Err(CommandError::InvalidDocument(e)) && e@ == m,
        },
{
    let mut best: Option<u64> = None;
    let mut i: usize = 0;
    proof {
        assert(ids@.take(0) =~= Seq::<u64>::empty());
    }
    while i < ids.len()
        invariant
            i <= ids@.len(),
            best == max_id(ids@.take(i as int)),
        decreases ids@.len() - i,
    {
        proof {
            assert(ids@.take(i + 1).drop_last() =~= ids@.take(i as int));
        }
        best = match best {
            None => Some(ids[i]),
            Some(m) => Some(if m < ids[i] { ids[i] } else { m }),
        };
        i += 1;
    }
    proof {
        assert(ids@.take(ids@.len() as int) =~= ids@);
    }
    match best {
        None => Ok(1),
        Some(m) => {
            if m == u64::MAX {
                let mut e = String::new();
                push_str(&mut e, kind);
                push_str(&mut e, " id space is exhausted");
                Err(CommandError::InvalidDocument(e))
            } else {
                Ok(m + 1)
            }
        },
    }
}

pub open spec fn behind_message(kind: Seq<char>, next: u64) -> Seq<char> {
    "next "@ + kind + " id "@ + decimal(next as nat) + " is behind existing ids"@
}

/// The next id must be past every existing id.
pub fn validate_next_id(kind: &str, next_id: u64, ids: &[u64]) -> (r: Result<(), CommandError>)
    ensures
        match next_after(kind@, ids@) {
            Err(m) => r matches Err(CommandError::InvalidDocument(e)) && e@ == m,
            Ok(req) => if next_id < req {
                r matches Err(CommandError::InvalidDocument(e)) && e@ == behind_message(
                    kind@,
                    next_id,
                )
            } else {
                r is Ok
            },
        },
{
    let required = match next_id_after(kind, ids) {
        Err(e) => {
            return Err(e);
        },
        Ok(n) => n,
    };
    if next_id < required {
        let mut e = String::new();
        push_str(&mut e, "next ");
        push_str(&mut e, kind);
        push_str(&mut e, " id ");
        push_decimal(&mut e, next_id);
        push_str(&mut e, " is behind existing ids");
        proof {
            assert(e@ =~= behind_message(kind@, next_id));
        }
        return Err(CommandError::InvalidDocument(e));
    }
    Ok(())
}

/// The ids a transaction touched, by kind of change.
pub struct DocumentDiff {
    pub created_entities: Vec<EntityId>,
    pub updated_entities: Vec<EntityId>,
    pub deleted_entities: Vec<EntityId>,
    pub created_layers: Vec<LayerId>,
    pub updated_layers: Vec<LayerId>,
    pub deleted_layers: Vec<LayerId>,
    pub updated_parameters: Vec<ParameterId>,
    pub deleted_parameters: Vec<ParameterId>,
    pub created_constraints: Vec<ConstraintId>,
    pub updated_constraints: Vec<ConstraintId>,
    pub deleted_constraints: Vec<ConstraintId>,
}

pub struct DiffView {
    pub created_entities: Seq<EntityId>,
    pub updated_entities: Seq<EntityId>,
    pub deleted_entities: Seq<EntityId>,
    pub created_layers: Seq<LayerId>,
    pub updated_layers: Seq<LayerId>,
    pub deleted_layers: Seq<LayerId>,
    pub updated_parameters: Seq<ParameterId>,
    pub deleted_parameters: Seq<ParameterId>,
    pub created_constraints: Seq<ConstraintId>,
    pub updated_constraints: Seq<ConstraintId>,
    pub deleted_constraints: Seq<ConstraintId>,
}

impl DiffView {
    pub open spec fn empty() -> DiffView {
        DiffView {
            created_entities: Seq::empty(),
            updated_entities: Seq::empty(),
            deleted_entities: Seq::empty(),
            created_layers: Seq::empty(),
            updated_layers: Seq::empty(),
            deleted_layers: Seq::empty(),
            updated_parameters: Seq::empty(),
            deleted_parameters: Seq::empty(),
            created_constraints: Seq::empty(),
            updated_constraints: Seq::empty(),
            deleted_constraints: Seq::empty(),
        }
    }
}

impl View for DocumentDiff {
    type V = DiffView;

    open spec fn view(&self) -> DiffView {
        DiffView {
            created_entities: self.created_entities@,
            updated_entities: self.updated_entities@,
            deleted_entities: self.deleted_entities@,
            created_layers: self.created_layers@,
            updated_layers: self.updated_layers@,
            deleted_layers: self.deleted_layers@,
            updated_parameters: self.updated_parameters@,
            deleted_parameters: self.deleted_parameters@,
            created_constraints: self.created_constraints@,
            updated_constraints: self.updated_constraints@,
            deleted_constraints: self.deleted_constraints@,
        }
    }
}

impl DocumentDiff {
    /// The number of changes the diff lists.
    pub open spec fn change_count(&self) -> nat {
        self.created_entities@.len() + self.updated_entities@.len() + self.deleted_entities@.len()
            + self.created_layers@.len() + self.updated_layers@.len() + self.deleted_layers@.len()
            + self.updated_parameters@.len() + self.deleted_parameters@.len()
            + self.created_constraints@.len() + self.updated_constraints@.len()
            + self.deleted_constraints@.len()
    }

    pub fn empty() -> (d: Self)
        ensures
            d.change_count() == 0,
            d@ == DiffView::empty(),
    {
        DocumentDiff {
            created_entities: Vec::new(),
            updated_entities: Vec::new(),
            deleted_entities: Vec::new(),
            created_layers: Vec::new(),
            updated_layers: Vec::new(),
            deleted_layers: Vec::new(),
            updated_parameters: Vec::new(),
            deleted_parameters: Vec::new(),
            created_constraints: Vec::new(),
            updated_constraints: Vec::new(),
            deleted_constraints: Vec::new(),
        }
    }

    /// No change at all.
    pub fn is_empty(&self) -> (r: bool)
        ensures
            r == (self.change_count() == 0),
    {
        self.created_entities.len() == 0 && self.updated_entities.len() == 0
            && self.deleted_entities.len() == 0 && self.created_layers.len() == 0
            && self.updated_layers.len() == 0 && self.deleted_layers.len() == 0
            && self.updated_parameters.len() == 0 && self.deleted_parameters.len() == 0
            && self.created_constraints.len() == 0 && self.updated_constraints.len() == 0
            && self.deleted_constraints.len() == 0
    }

    /// `"{n} model changes"`.
    pub fn summary(&self) -> (s: String)
        ensures
            s@ == decimal(self.change_count()) + " model changes"@,
    {
        let n: u128 = self.created_entities.len() as u128 + self.updated_entities.len() as u128
            + self.deleted_entities.len() as u128 + self.created_layers.len() as u128
            + self.updated_layers.len() as u128 + self.deleted_layers.len() as u128
            + self.updated_parameters.len() as u128 + self.deleted_parameters.len() as u128
            + self.created_constraints.len() as u128 + self.updated_constraints.len() as u128
            + self.deleted_constraints.len() as u128;
        let mut s = String::new();
        push_decimal_wide(&mut s, n);
        push_str(&mut s, " model changes");
        proof {
            assert(s@ =~= decimal(self.change_count()) + " model changes"@);
        }
        s
    }
}

/// `char::to_ascii_lowercase`.
pub open spec fn ascii_lower(c: char) -> char {
    if 'A' <= c <= 'Z' {
        ((c as u8) + 32) as char
    } else {
        c
    }
}

/// A name as layer names are compared: trimmed, ASCII letters lower-cased.
pub open spec fn layer_key(name: Seq<char>) -> Seq<char> {
    trimmed(name).map_values(|c: char| ascii_lower(c))
}

fn lower_char(c: char) -> (r: char)
    ensures
        r == ascii_lower(c),
{
    if 'A' <= c && c <= 'Z' {
        let code: u8 = c as u8 + 32;
        (code as char)
    } else {
        c
    }
}

/// The comparison key of a layer name.
pub fn layer_name_key(name: &str) -> (k: Vec<char>)
    ensures
        k@ == layer_key(name@),
{
    let (chars, start, end) = trim_range(name);
    let mut k: Vec<char> = Vec::new();
    let mut i = start;
    while i < end
        invariant
            start <= i <= end <= chars@.len(),
            trimmed(name@) == chars@.subrange(start as int, end as int),
            k@ == chars@.subrange(start as int, i as int).map_values(|c: char| ascii_lower(c)),
        decreases end - i,
    {
        k.push(lower_char(chars[i]));
        proof {
            assert(chars@.subrange(start as int, i + 1).map_values(|c: char| ascii_lower(c))
                =~= chars@.subrange(start as int, i as int).map_values(|c: char| ascii_lower(c)).push(
                ascii_lower(chars@[i as int]),
            ));
        }
        i += 1;
    }
    proof {
        assert(k@ =~= layer_key(name@));
    }
    k
}

pub fn same_chars(a: &Vec<char>, b: &Vec<char>) -> (r: bool)
    ensures
        r == (a@ == b@),
{
    if a.len() != b.len() {
        return false;
    }
    let mut i: usize = 0;
    while i < a.len()
        invariant
            i <= a@.len() == b@.len(),
            forall|j: int| 0 <= j < i ==> a@[j] == b@[j],
        decreases a@.len() - i,
    {
        if a[i] != b[i] {
            return false;
        }
        i += 1;
    }
    proof {
        assert(a@ =~= b@);
    }
    true
}

pub open spec fn not_unique_message(name: Seq<char>) -> Seq<char> {
    "layer name "@ + name + " is not unique"@
}

fn not_unique(name: &str) -> (e: CommandError)
    ensures
        e matches CommandError::InvalidLayer(m) && m@ == not_unique_message(name@),
{
    let mut m = String::new();
    push_str(&mut m, "layer name ");
    push_str(&mut m, name);
    push_str(&mut m, " is not unique");
    CommandError::InvalidLayer(m)
}

pub open spec fn key_mismatch_message(key: LayerId, id: LayerId) -> Seq<char> {
    "layer map key "@ + decimal(key as nat) + " does not match layer id "@ + decimal(id as nat)
}

/// The first fault of entry `i` of a layer table held in key order: the
/// message, and whether it is a layer fault rather than a document fault.
pub open spec fn layer_entry_problem(layers: Seq<(LayerId, Layer)>, i: int) -> Option<(bool, Seq<char>)> {
    let key = layers[i].0;
    let layer = layers[i].1;
    if key != layer.id {
        Some((false, key_mismatch_message(key, layer.id)))
    } else if layer.id == u64::MAX || is_blank(layer.name@) {
        Some((false, "layer ids and names must be valid"@))
    } else if exists|j: int|
        0 <= j < i && #[trigger] layer_key(layers[j].1.name@) == layer_key(layer.name@) {
        Some((true, not_unique_message(layer.name@)))
    } else {
        None
    }
}

pub open spec fn layer_table_problem_from(layers: Seq<(LayerId, Layer)>, i: int) -> Option<
    (bool, Seq<char>),
>
    decreases layers.len() - i,
{
    if i < 0 || i >= layers.len() {
        None
    } else if layer_entry_problem(layers, i) is Some {
        layer_entry_problem(layers, i)
    } else {
        layer_table_problem_from(layers, i + 1)
    }
}

/// The schema and layer checks that open a document's validation: the
/// schema version must be current, there must be a layer, each entry's key
/// must be its layer's id, ids and names must be valid, and names must differ
/// up to ASCII case.
pub fn validate_layer_table(schema_version: u32, layers: &[(LayerId, Layer)]) -> (r: Result<
    (),
    CommandError,
>)
    ensures
        schema_version != CURRENT_SCHEMA_VERSION ==> (r matches Err(
            CommandError::UnsupportedSchemaVersion(v),
        ) && v == schema_version),
        schema_version == CURRENT_SCHEMA_VERSION && layers@.len() == 0 ==> (r matches Err(
            CommandError::InvalidDocument(m),
        ) && m@ == "a document must contain at least one layer"@),
        schema_version == CURRENT_SCHEMA_VERSION && layers@.len() > 0 ==> match layer_table_problem_from(
            layers@,
            0,
        ) {
            None => r is Ok,
            Some((true, m)) => r matches Err(CommandError::InvalidLayer(e)) && e@ == m,
            Some((false, m)) => r matches Err(CommandError::InvalidDocument(e)) && e@ == m,
        },
{
    if schema_version != CURRENT_SCHEMA_VERSION {
        return Err(CommandError::UnsupportedSchemaVersion(schema_version));
    }
    if layers.len() == 0 {
        return Err(
            CommandError::InvalidDocument("a document must contain at least one layer".to_owned()),
        );
    }
    let mut keys: Vec<Vec<char>> = Vec::new();
    let mut i: usize = 0;
    while i < layers.len()
        invariant
            i <= layers@.len(),
            schema_version == CURRENT_SCHEMA_VERSION,
            layers@.len() > 0,
            keys@.len() == i,
            forall|j: int| 0 <= j < i ==> (#[trigger] keys@[j])@ == layer_key(layers@[j].1.name@),
            layer_table_problem_from(layers@, 0) == layer_table_problem_from(layers@, i as int),
        decreases layers@.len() - i,
    {
        let key = layers[i].0;
        let layer = &layers[i].1;
        if key != layer.id {
            let mut m = String::new();
            push_str(&mut m, "layer map key ");
            push_decimal(&mut m, key);
            push_str(&mut m, " does not match layer id ");
            push_decimal(&mut m, layer.id);
            proof {
                assert(m@ =~= key_mismatch_message(key, layer.id));
            }
            return Err(CommandError::InvalidDocument(m));
        }
        if layer.id == u64::MAX || str_is_blank(layer.name.as_str()) {
            return Err(CommandError::InvalidDocument("layer ids and names must be valid".to_owned()));
        }
        let name_key = layer_name_key(layer.name.as_str());
        let mut j: usize = 0;
        while j < i
            invariant
                i < layers@.len(),
                j <= i,
                schema_version == CURRENT_SCHEMA_VERSION,
                layer_table_problem_from(layers@, 0) == layer_table_problem_from(layers@, i as int),
                layers@[i as int].0 == layers@[i as int].1.id,
                layer.name@ == layers@[i as int].1.name@,
                !(layers@[i as int].1.id == u64::MAX || is_blank(layers@[i as int].1.name@)),
                keys@.len() == i,
                forall|q: int| 0 <= q < i ==> (#[trigger] keys@[q])@ == layer_key(layers@[q].1.name@),
                name_key@ == layer_key(layers@[i as int].1.name@),
                forall|q: int| 0 <= q < j ==> #[trigger] layer_key(layers@[q].1.name@) != name_key@,
            decreases i - j,
        {
            if same_chars(&keys[j], &name_key) {
                proof {
                    assert(layer_key(layers@[j as int].1.name@) == layer_key(layers@[i as int].1.name@));
                    assert(layer_entry_problem(layers@, i as int) == Some((true, not_unique_message(layers@[i as int].1.name@))));
                    assert(layer_table_problem_from(layers@, i as int) == Some((true, not_unique_message(layers@[i as int].1.name@))));
                    assert(layer.name@ == layers@[i as int].1.name@);
                }
                return Err(not_unique(layer.name.as_str()));
            }
            j += 1;
        }
        keys.push(name_key);
        i += 1;
    }
    Ok(())
}


/// A diff is empty exactly when its summary counts `0` changes.
pub proof fn law_diff_empty_iff_summary_reads_zero(d: DocumentDiff)
    ensures
        (d.change_count() == 0) <==> (decimal(d.change_count()) == seq!['0']),
{
    law_decimal_reads_zero(d.change_count());
}

} // verus!
