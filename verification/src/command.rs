//! Commands against a document, and transactions of commands.
//!
//! A document is held here as what its rules read: the metadata and units,
//! the layer table, the entities with what validation reads of them, the
//! parameters, the constraints, and the next ids. What only floating-point
//! geometry can decide (whether an entity's coordinates are finite, whether
//! a constraint's dimension evaluates, whether parameter formulas evaluate)
//! reaches the document as plain facts computed by the host: an entity's
//! geometry fault, a parameter's finiteness, a constraint's dimension fault.

use std::collections::BTreeMap;
use vstd::prelude::*;

use crate::constraint::{
    anchor_text, constraint_header_problem, push_anchor, validate_constraint_header, ConstraintKind,
    PointAnchor, SketchConstraint, SketchPoint,
};
use crate::document::{
    behind_message, lemma_max_id, next_id_after, DiffView, DocumentDiff, layer_key, layer_name_key, layer_table_problem_from, next_after,
    not_unique_message, same_chars, validate_layer_table, validate_next_id, CommandError,
    domain_set, CommandFault, DocumentMetadata, Domain, DocumentSummary, Layer, Units,
};
use crate::expression::{
    check_source, expression_error_text, expression_names, is_valid_parameter_name, string_views,
    utf8, valid_parameter_name, ParameterExpression,
};
use crate::keyed::{
    entries, entry_refs, lemma_entries_exist, lemma_listing_len, lemma_listing_unique, lists_in_order,
};
use crate::text::{decimal, is_blank, push_decimal, push_str, str_equal, str_is_blank};
use crate::{ConstraintId, EntityId, LayerId, ParameterId, CURRENT_SCHEMA_VERSION};

verus! {

broadcast use vstd::std_specs::btree::group_btree_axioms;

/// An entity's kind, as the document's rules read it: which kind it is,
/// whether a sketch profile is closed and how many points it has, and which
/// profile an extrusion extrudes.
#[derive(Clone, Copy, Debug, PartialEq, Eq, Structural)]
pub enum EntityShape {
    Line,
    Circle,
    Arc,
    AlignedDimension,
    Rectangle,
    SketchProfile { closed: bool, points: u64 },
    Extrude { profile: EntityId },
    Wall,
    Room,
    Text,
}

pub open spec fn shape_domain(shape: EntityShape) -> Domain {
    match shape {
        EntityShape::SketchProfile { .. } | EntityShape::Extrude { .. } => Domain::Mechanical,
        EntityShape::Wall | EntityShape::Room => Domain::Architecture,
        _ => Domain::Drafting,
    }
}

pub open spec fn is_closed_profile(shape: EntityShape) -> bool {
    shape matches EntityShape::SketchProfile { closed: true, .. }
}

impl EntityShape {
    /// The drawing domain the kind belongs to.
    pub fn domain(&self) -> (d: Domain)
        ensures
            d == shape_domain(*self),
    {
        match self {
            EntityShape::Line
            | EntityShape::Circle
            | EntityShape::Arc
            | EntityShape::AlignedDimension
            | EntityShape::Rectangle
            | EntityShape::Text => Domain::Drafting,
            EntityShape::SketchProfile { .. } | EntityShape::Extrude { .. } => Domain::Mechanical,
            EntityShape::Wall | EntityShape::Room => Domain::Architecture,
        }
    }
}

/// An entity as the document's rules see it.
pub struct EntityRecord {
    pub id: EntityId,
    pub layer: LayerId,
    pub name: String,
    pub kind: EntityShape,
    /// What the entity's own floating-point geometry checks report (finite
    /// coordinates, positive sizes, a valid angular span, ...), when one
    /// fails.
    pub geometry_fault: Option<String>,
    /// The parameters the entity references, in increasing order.
    pub parameter_refs: Vec<ParameterId>,
}

pub struct EntityView {
    pub id: EntityId,
    pub layer: LayerId,
    pub name: Seq<char>,
    pub kind: EntityShape,
    pub geometry_fault: Option<Seq<char>>,
    pub parameter_refs: Seq<ParameterId>,
}

pub open spec fn text_of(t: Option<String>) -> Option<Seq<char>> {
    match t {
        Some(m) => Some(m@),
        None => None,
    }
}

impl View for EntityRecord {
    type V = EntityView;

    open spec fn view(&self) -> EntityView {
        EntityView {
            id: self.id,
            layer: self.layer,
            name: self.name@,
            kind: self.kind,
            geometry_fault: text_of(self.geometry_fault),
            parameter_refs: self.parameter_refs@,
        }
    }
}

pub fn copy_text(t: &Option<String>) -> (c: Option<String>)
    ensures
        c == *t,
{
    match t {
        Some(m) => Some(m.clone()),
        None => None,
    }
}

impl EntityRecord {
    /// A copy with the same view.
    pub fn copy(&self) -> (c: Self)
        ensures
            c@ == self@,
    {
        EntityRecord {
            id: self.id,
            layer: self.layer,
            name: self.name.clone(),
            kind: self.kind,
            geometry_fault: copy_text(&self.geometry_fault),
            parameter_refs: self.parameter_refs.clone(),
        }
    }
}

/// A parameter as the document's rules see it.
pub struct ParameterRecord {
    pub id: ParameterId,
    pub name: String,
    /// Whether the parameter's literal value is finite.
    pub value_finite: bool,
    pub expression: Option<ParameterExpression>,
}

impl ParameterRecord {
    /// A field-for-field copy.
    pub fn copy(&self) -> (c: Self)
        ensures
            c == *self,
    {
        ParameterRecord {
            id: self.id,
            name: self.name.clone(),
            value_finite: self.value_finite,
            expression: match &self.expression {
                Some(e) => Some(e.copy()),
                None => None,
            },
        }
    }
}

/// A document: its metadata and units, its tables keyed by id, and the ids
/// it hands out next.
pub struct CadDocument {
    pub schema_version: u32,
    pub metadata: DocumentMetadata,
    pub units: Units,
    pub layers: BTreeMap<LayerId, Layer>,
    pub entities: BTreeMap<EntityId, EntityRecord>,
    pub parameters: BTreeMap<ParameterId, ParameterRecord>,
    pub constraints: BTreeMap<ConstraintId, SketchConstraint>,
    pub next_layer_id: LayerId,
    pub next_entity_id: EntityId,
    pub next_parameter_id: ParameterId,
    pub next_constraint_id: ConstraintId,
}

pub struct DocumentView {
    pub schema_version: u32,
    pub metadata: DocumentMetadata,
    pub units: Units,
    pub layers: Map<LayerId, Layer>,
    pub entities: Map<EntityId, EntityView>,
    pub parameters: Map<ParameterId, ParameterRecord>,
    pub constraints: Map<ConstraintId, SketchConstraint>,
    pub next_layer_id: LayerId,
    pub next_entity_id: EntityId,
    pub next_parameter_id: ParameterId,
    pub next_constraint_id: ConstraintId,
}

pub open spec fn entity_views(m: Map<EntityId, EntityRecord>) -> Map<EntityId, EntityView> {
    Map::new(|k: EntityId| m.contains_key(k), |k: EntityId| m[k]@)
}

impl View for CadDocument {
    type V = DocumentView;

    open spec fn view(&self) -> DocumentView {
        DocumentView {
            schema_version: self.schema_version,
            metadata: self.metadata,
            units: self.units,
            layers: self.layers@,
            entities: entity_views(self.entities@),
            parameters: self.parameters@,
            constraints: self.constraints@,
            next_layer_id: self.next_layer_id,
            next_entity_id: self.next_entity_id,
            next_parameter_id: self.next_parameter_id,
            next_constraint_id: self.next_constraint_id,
        }
    }
}

impl CadDocument {
    /// A new document titled `title`, in millimetres: the current schema,
    /// the single layer 1 "Concept", no entities, parameters or
    /// constraints, and next ids 2, 1, 1, 1.
    pub fn new(title: &str) -> (d: Self)
        ensures
            d@.schema_version == CURRENT_SCHEMA_VERSION,
            d@.metadata.title@ == title@,
            d@.metadata.description@ == Seq::<char>::empty(),
            d@.units == Units::Millimeters,
            d@.layers.dom() == set![1u64],
            d@.layers[1].id == 1,
            d@.layers[1].name@ == "Concept"@,
            d@.layers[1].visible && !d@.layers[1].locked,
            d@.layers[1].color == [73u8, 184u8, 165u8, 255u8],
            d@.entities.dom().is_empty(),
            d@.parameters.dom().is_empty(),
            d@.constraints.dom().is_empty(),
            d@.next_layer_id == 2,
            d@.next_entity_id == 1,
            d@.next_parameter_id == 1,
            d@.next_constraint_id == 1,
    {
        let mut layers: BTreeMap<LayerId, Layer> = BTreeMap::new();
        layers.insert(
            1,
            Layer {
                id: 1,
                name: "Concept".to_owned(),
                visible: true,
                locked: false,
                color: [73, 184, 165, 255],
            },
        );
        let d = CadDocument {
            schema_version: CURRENT_SCHEMA_VERSION,
            metadata: DocumentMetadata { title: title.to_owned(), description: String::new() },
            units: Units::Millimeters,
            layers,
            entities: BTreeMap::new(),
            parameters: BTreeMap::new(),
            constraints: BTreeMap::new(),
            next_layer_id: 2,
            next_entity_id: 1,
            next_parameter_id: 1,
            next_constraint_id: 1,
        };
        proof {
            assert(d@.layers.dom() =~= set![1u64]);
            assert(d@.entities.dom() =~= Set::<u64>::empty());
        }
        d
    }
}

/// The domains the document's entities belong to, each once, in domain
/// order.
pub open spec fn present_domains(d: DocumentView) -> Seq<Domain> {
    seq![Domain::Drafting, Domain::Mechanical, Domain::Architecture].filter(
        |x: Domain| exists|k: EntityId| #[trigger] d.entities.contains_key(k) && shape_domain(d.entities[k].kind) == x,
    )
}

impl CadDocument {
    /// The id the next created entity receives.
    pub fn next_entity_id(&self) -> (n: EntityId)
        ensures
            n == self@.next_entity_id,
    {
        self.next_entity_id
    }

    /// The id the next created layer receives.
    pub fn next_layer_id(&self) -> (n: LayerId)
        ensures
            n == self@.next_layer_id,
    {
        self.next_layer_id
    }

    /// The id the next created parameter receives.
    pub fn next_parameter_id(&self) -> (n: ParameterId)
        ensures
            n == self@.next_parameter_id,
    {
        self.next_parameter_id
    }

    /// The id the next created constraint receives.
    pub fn next_constraint_id(&self) -> (n: ConstraintId)
        ensures
            n == self@.next_constraint_id,
    {
        self.next_constraint_id
    }

    /// The title, the numbers of entities and layers, and the domains
    /// present.
    pub fn summary(&self) -> (s: DocumentSummary)
        ensures
            s.title@ == self@.metadata.title@,
            s.entity_count == self@.entities.dom().len(),
            s.layer_count == self@.layers.dom().len(),
            s.domains@ == present_domains(self@),
    {
        let all = entry_refs(&self.entities);
        proof {
            lemma_entity_entries(self.entities@);
        }
        let ghost es = entries(self@.entities);
        let mut kinds: Vec<Domain> = Vec::new();
        let mut i: usize = 0;
        while i < all.len()
            invariant
                i <= all@.len(),
                all@.len() == es.len(),
                forall|j: int| 0 <= j < all@.len() ==> (#[trigger] all@[j]).0 == es[j].0 && (*all@[j].1)@ == es[j].1,
                es == entries(self@.entities),
                kinds@.len() == i,
                forall|j: int| 0 <= j < i ==> kinds@[j] == shape_domain(#[trigger] es[j].1.kind),
            decreases all@.len() - i,
        {
            kinds.push(all[i].1.kind.domain());
            i += 1;
        }
        let s = DocumentSummary::of(self.metadata.title.as_str(), &kinds, self.layers.len());
        proof {
            let d = self@;
            assert forall|x: Domain| kinds@.contains(x) == (exists|k: EntityId| #[trigger] d.entities.contains_key(k) && shape_domain(d.entities[k].kind) == x) by {
                if kinds@.contains(x) {
                    let j = choose|j: int| 0 <= j < kinds@.len() && kinds@[j] == x;
                    assert(d.entities.contains_key(es[j].0));
                }
                if exists|k: EntityId| #[trigger] d.entities.contains_key(k) && shape_domain(d.entities[k].kind) == x {
                    let k = choose|k: EntityId| #[trigger] d.entities.contains_key(k) && shape_domain(d.entities[k].kind) == x;
                    let j = choose|j: int| 0 <= j < es.len() && es[j].0 == k;
                    assert(kinds@[j] == x);
                }
            }
            assert((|x: Domain| kinds@.contains(x)) =~= (|x: Domain| exists|k: EntityId| #[trigger] d.entities.contains_key(k) && shape_domain(d.entities[k].kind) == x));
            assert(d.entities.dom() =~= self.entities@.dom());
            assert(self.entities@.dom().finite());
            lemma_listing_len(es, d.entities);
        }
        s
    }
}

// ---------------------------------------------------------------------------
// The rules each command must meet
// ---------------------------------------------------------------------------

/// What `validate_layer` reports for `layer` against the layer table,
/// ignoring the layer being replaced.
pub open spec fn layer_problem(layer: Layer, layers: Map<LayerId, Layer>, replacing: Option<LayerId>) -> Option<
    Seq<char>,
> {
    if layer.id == u64::MAX || is_blank(layer.name@) {
        Some("layer id and name must be valid"@)
    } else if exists|k: LayerId|
        #[trigger] layers.contains_key(k) && Some(layers[k].id) != replacing && layer_key(
            layers[k].name@,
        ) == layer_key(layer.name@) {
        Some(not_unique_message(layer.name@))
    } else {
        None
    }
}

/// What `require_unlocked_layer` reports for layer `id`.
pub open spec fn locked_problem(d: DocumentView, id: LayerId) -> Option<CommandFault> {
    if !d.layers.contains_key(id) {
        Some(CommandFault::LayerMissing(id))
    } else if d.layers[id].locked {
        Some(CommandFault::LayerLocked(id))
    } else {
        None
    }
}

/// What `validate_entity` reports for `e` in document `d`.
pub open spec fn entity_problem(e: EntityView, d: DocumentView) -> Option<CommandFault> {
    if e.id == u64::MAX || is_blank(e.name) {
        Some(CommandFault::InvalidGeometry("entity id and name must be valid"@))
    } else if !d.layers.contains_key(e.layer) {
        Some(CommandFault::LayerMissing(e.layer))
    } else if e.kind matches EntityShape::SketchProfile { closed: true, points } && points < 3 {
        Some(CommandFault::InvalidGeometry("a closed sketch needs at least three points"@))
    } else if e.geometry_fault is Some {
        Some(CommandFault::InvalidGeometry(e.geometry_fault->0))
    } else {
        match e.kind {
            EntityShape::Extrude { profile } => if !d.entities.contains_key(profile) {
                Some(CommandFault::EntityMissing(profile))
            } else if is_closed_profile(d.entities[profile].kind) {
                None
            } else {
                Some(CommandFault::InvalidReference("an extrude requires a closed sketch profile"@))
            },
            _ => None,
        }
    }
}

/// What setting parameter `p` is refused for.
pub open spec fn parameter_problem(p: ParameterRecord) -> Option<CommandFault> {
    if p.id == u64::MAX || !valid_parameter_name(utf8(p.name@)) || !p.value_finite {
        Some(CommandFault::InvalidParameter("parameter name and value must be valid"@))
    } else {
        match p.expression {
            Some(x) => match check_source(x@) {
                Err(err) => Some(CommandFault::InvalidParameter(expression_error_text(err))),
                Ok(_) => None,
            },
            None => None,
        }
    }
}

pub open spec fn entity_missing_message(id: EntityId) -> Seq<char> {
    "constraint entity "@ + decimal(id as nat) + " does not exist"@
}

/// Whether an entity of kind `kind` has anchor `anchor`: `None` when the
/// kind has no such anchor, `Some(false)` when a sketch lacks the vertex.
pub open spec fn anchor_fit(kind: EntityShape, anchor: PointAnchor) -> Option<bool> {
    match anchor {
        PointAnchor::Start | PointAnchor::End => if kind == EntityShape::Line || kind
            == EntityShape::Wall {
            Some(true)
        } else {
            None
        },
        PointAnchor::Center => if kind == EntityShape::Circle || kind == EntityShape::Arc {
            Some(true)
        } else {
            None
        },
        PointAnchor::Origin => if kind == EntityShape::Rectangle {
            Some(true)
        } else {
            None
        },
        PointAnchor::Vertex { index } => match kind {
            EntityShape::SketchProfile { points, .. } => Some(index < points),
            _ => None,
        },
        PointAnchor::Insertion => if kind == EntityShape::Text {
            Some(true)
        } else {
            None
        },
    }
}

/// Why sketch point `p` does not resolve in document `d`.
pub open spec fn point_problem(p: SketchPoint, d: DocumentView) -> Option<Seq<char>> {
    if !d.entities.contains_key(p.entity_id) {
        Some(entity_missing_message(p.entity_id))
    } else {
        match anchor_fit(d.entities[p.entity_id].kind, p.anchor) {
            Some(true) => None,
            Some(false) => Some(
                "constraint anchor "@ + anchor_text(p.anchor) + " is missing on entity "@ + decimal(
                    p.entity_id as nat,
                ),
            ),
            None => Some(
                "constraint anchor "@ + anchor_text(p.anchor) + " is not supported by entity "@
                    + decimal(p.entity_id as nat),
            ),
        }
    }
}

/// Why two points, taken together, do not make a constraint's points.
pub open spec fn points_problem(first: SketchPoint, second: SketchPoint, d: DocumentView) -> Option<
    Seq<char>,
> {
    if first == second {
        Some("a constraint must reference two distinct sketch points"@)
    } else if point_problem(first, d) is Some {
        point_problem(first, d)
    } else {
        point_problem(second, d)
    }
}

/// Why constraint `c` is not valid in document `d`: its id and name, then its
/// points or entity, then, for a distance or radius, the fault its dimension
/// has (`dimension_fault`).
pub open spec fn constraint_problem(
    c: SketchConstraint,
    d: DocumentView,
    dimension_fault: Option<Seq<char>>,
) -> Option<Seq<char>> {
    match constraint_header_problem(c.id, c.name@) {
        Some(m) => Some(m),
        None => match c.kind {
            ConstraintKind::Coincident { first, second } => points_problem(first, second, d),
            ConstraintKind::Horizontal { segment } => points_problem(segment.start, segment.end, d),
            ConstraintKind::Vertical { segment } => points_problem(segment.start, segment.end, d),
            ConstraintKind::Distance { first, second, value } => if points_problem(
                first,
                second,
                d,
            ) is Some {
                points_problem(first, second, d)
            } else {
                dimension_fault
            },
            ConstraintKind::Radius { entity_id, value } => if !d.entities.contains_key(entity_id) {
                Some(entity_missing_message(entity_id))
            } else if !(d.entities[entity_id].kind == EntityShape::Circle
                || d.entities[entity_id].kind == EntityShape::Arc) {
                Some("radius constraints require a circle or arc entity"@)
            } else {
                dimension_fault
            },
        },
    }
}

pub open spec fn layer_not_empty_message(id: LayerId) -> Seq<char> {
    "layer "@ + decimal(id as nat) + " must be empty before it can be deleted"@
}

pub open spec fn missing_parameter_message(id: ParameterId) -> Seq<char> {
    "parameter "@ + decimal(id as nat) + " does not exist"@
}

pub open spec fn some_entity_on(d: DocumentView, id: LayerId) -> bool {
    exists|k: EntityId| #[trigger] d.entities.contains_key(k) && d.entities[k].layer == id
}

/// Why command `c` cannot be applied to document `d`, if it cannot.
pub open spec fn command_problem(c: CadCommand, d: DocumentView) -> Option<CommandFault> {
    match c {
        CadCommand::CreateLayer { layer } => match layer_problem(layer, d.layers, None) {
            Some(m) => Some(CommandFault::InvalidLayer(m)),
            None => if d.layers.contains_key(layer.id) {
                Some(CommandFault::LayerExists(layer.id))
            } else {
                None
            },
        },
        CadCommand::UpdateLayer { layer } => if !d.layers.contains_key(layer.id) {
            Some(CommandFault::LayerMissing(layer.id))
        } else {
            match layer_problem(layer, d.layers, Some(layer.id)) {
                Some(m) => Some(CommandFault::InvalidLayer(m)),
                None => None,
            }
        },
        CadCommand::DeleteLayer { id } => if !d.layers.contains_key(id) {
            Some(CommandFault::LayerMissing(id))
        } else if d.layers.len() == 1 {
            Some(CommandFault::InvalidLayer("a document must retain at least one layer"@))
        } else if some_entity_on(d, id) {
            Some(CommandFault::InvalidLayer(layer_not_empty_message(id)))
        } else {
            None
        },
        CadCommand::CreateEntity { entity } => if d.entities.contains_key(entity.id) {
            Some(CommandFault::EntityExists(entity.id))
        } else if entity_problem(entity@, d) is Some {
            entity_problem(entity@, d)
        } else {
            locked_problem(d, entity.layer)
        },
        CadCommand::UpdateEntity { entity } => if !d.entities.contains_key(entity.id) {
            Some(CommandFault::EntityMissing(entity.id))
        } else if locked_problem(d, d.entities[entity.id].layer) is Some {
            locked_problem(d, d.entities[entity.id].layer)
        } else if entity_problem(entity@, d) is Some {
            entity_problem(entity@, d)
        } else {
            locked_problem(d, entity.layer)
        },
        CadCommand::DeleteEntity { id } => if !d.entities.contains_key(id) {
            Some(CommandFault::EntityMissing(id))
        } else {
            locked_problem(d, d.entities[id].layer)
        },
        CadCommand::SetParameter { parameter } => parameter_problem(parameter),
        CadCommand::DeleteParameter { id } => if d.parameters.contains_key(id) {
            None
        } else {
            Some(CommandFault::InvalidParameter(missing_parameter_message(id)))
        },
        CadCommand::CreateConstraint { constraint, dimension_fault } => if d.constraints.contains_key(
            constraint.id,
        ) {
            Some(CommandFault::ConstraintExists(constraint.id))
        } else {
            match constraint_problem(constraint, d, text_of(dimension_fault)) {
                Some(m) => Some(CommandFault::InvalidConstraint(m)),
                None => None,
            }
        },
        CadCommand::UpdateConstraint { constraint, dimension_fault } => if !d.constraints.contains_key(
            constraint.id,
        ) {
            Some(CommandFault::ConstraintMissing(constraint.id))
        } else {
            match constraint_problem(constraint, d, text_of(dimension_fault)) {
                Some(m) => Some(CommandFault::InvalidConstraint(m)),
                None => None,
            }
        },
        CadCommand::DeleteConstraint { id } => if d.constraints.contains_key(id) {
            None
        } else {
            Some(CommandFault::ConstraintMissing(id))
        },
    }
}

/// A change to a document.
#[allow(inconsistent_fields)]
pub enum CadCommand {
    CreateLayer { layer: Layer },
    UpdateLayer { layer: Layer },
    DeleteLayer { id: LayerId },
    CreateEntity { entity: EntityRecord },
    UpdateEntity { entity: EntityRecord },
    DeleteEntity { id: EntityId },
    SetParameter { parameter: ParameterRecord },
    DeleteParameter { id: ParameterId },
    /// `dimension_fault` is what evaluating a distance or radius
    /// constraint's dimension against the document it applies to reports,
    /// when that fails: the expression's error, or a value of the wrong sign.
    CreateConstraint { constraint: SketchConstraint, dimension_fault: Option<String> },
    /// `dimension_fault` as for `CreateConstraint`.
    UpdateConstraint { constraint: SketchConstraint, dimension_fault: Option<String> },
    DeleteConstraint { id: ConstraintId },
}

pub open spec fn result_of(p: Option<CommandFault>, r: Result<(), CommandError>) -> bool {
    match p {
        None => r is Ok,
        Some(f) => r matches Err(e) && e@ == f,
    }
}

// ---------------------------------------------------------------------------
// Checks on the tables
// ---------------------------------------------------------------------------

/// A created or updated layer needs a valid id, a name, and a name no other
/// layer (but the one it replaces) has up to ASCII case.
pub fn validate_layer(
    layer: &Layer,
    layers: &BTreeMap<LayerId, Layer>,
    replacing: Option<LayerId>,
) -> (r: Result<(), CommandError>)
    ensures
        match layer_problem(*layer, layers@, replacing) {
            None => r is Ok,
            Some(m) => r matches Err(CommandError::InvalidLayer(e)) && e@ == m,
        },
{
    if layer.id == u64::MAX || str_is_blank(layer.name.as_str()) {
        return Err(CommandError::InvalidLayer("layer id and name must be valid".to_owned()));
    }
    let key = layer_name_key(layer.name.as_str());
    let all = entry_refs(layers);
    let ghost es = entries(layers@);
    let mut k: usize = 0;
    while k < all.len()
        invariant
            k <= all@.len(),
            all@.len() == es.len(),
            forall|i: int| 0 <= i < all@.len() ==> (#[trigger] all@[i]).0 == es[i].0 && *all@[i].1 == es[i].1,
            lists_in_order(es, layers@),
            key@ == layer_key(layer.name@),
            !(layer.id == u64::MAX || is_blank(layer.name@)),
            forall|j: int|
                0 <= j < k ==> !(Some(es[j].1.id) != replacing && #[trigger] layer_key(es[j].1.name@)
                    == layer_key(layer.name@)),
        decreases all@.len() - k,
    {
        let candidate: &Layer = all[k].1;
        let other = layer_name_key(candidate.name.as_str());
        let skipped = match replacing {
            Some(id) => candidate.id == id,
            None => false,
        };
        if !skipped && same_chars(&other, &key) {
            proof {
                let kk = es[k as int].0;
                assert(layers@.contains_key(kk));
                assert(layer_key(layers@[kk].name@) == layer_key(layer.name@));
            }
            let mut m = String::new();
            push_str(&mut m, "layer name ");
            push_str(&mut m, layer.name.as_str());
            push_str(&mut m, " is not unique");
            proof {
                assert(m@ =~= not_unique_message(layer.name@));
            }
            return Err(CommandError::InvalidLayer(m));
        }
        k += 1;
    }
    proof {
        assert forall|kk: LayerId| #[trigger] layers@.contains_key(kk) implies !(Some(layers@[kk].id)
            != replacing && layer_key(layers@[kk].name@) == layer_key(layer.name@)) by {
            let i = choose|i: int| 0 <= i < es.len() && es[i].0 == kk;
            assert(layer_key(es[i].1.name@) == layer_key(layers@[kk].name@));
        }
    }
    Ok(())
}

/// The layer `id` must exist and be unlocked before its contents change.
pub fn require_unlocked_layer(document: &CadDocument, id: LayerId) -> (r: Result<(), CommandError>)
    ensures
        result_of(locked_problem(document@, id), r),
{
    match document.layers.get(&id) {
        None => Err(CommandError::LayerMissing(id)),
        Some(layer) => if layer.locked {
            Err(CommandError::LayerLocked(id))
        } else {
            Ok(())
        },
    }
}

/// Whether some entity sits on layer `id`.
pub fn layer_has_entities(document: &CadDocument, id: LayerId) -> (r: bool)
    ensures
        r == some_entity_on(document@, id),
{
    let all = entry_refs(&document.entities);
    let ghost es = entries(document.entities@);
    let mut k: usize = 0;
    while k < all.len()
        invariant
            k <= all@.len(),
            all@.len() == es.len(),
            forall|i: int| 0 <= i < all@.len() ==> (#[trigger] all@[i]).0 == es[i].0 && *all@[i].1 == es[i].1,
            lists_in_order(es, document.entities@),
            forall|j: int| 0 <= j < k ==> (#[trigger] es[j]).1.layer != id,
        decreases all@.len() - k,
    {
        if all[k].1.layer == id {
            proof {
                let kk = es[k as int].0;
                assert(document.entities@.contains_key(kk));
                assert(document@.entities.contains_key(kk));
            }
            return true;
        }
        k += 1;
    }
    proof {
        assert forall|kk: EntityId| #[trigger] document@.entities.contains_key(kk) implies document@.entities[kk].layer
            != id by {
            assert(document.entities@.contains_key(kk));
            let i = choose|i: int| 0 <= i < es.len() && es[i].0 == kk;
            assert(es[i] == (kk, document.entities@[kk]));
        }
    }
    false
}

/// An entity needs a valid id and a name, an existing layer, sound
/// geometry, and, for an extrusion, a closed sketch profile to extrude.
pub fn validate_entity(entity: &EntityRecord, document: &CadDocument) -> (r: Result<
    (),
    CommandError,
>)
    ensures
        result_of(entity_problem(entity@, document@), r),
{
    if entity.id == u64::MAX || str_is_blank(entity.name.as_str()) {
        return Err(CommandError::InvalidGeometry("entity id and name must be valid".to_owned()));
    }
    if !document.layers.contains_key(&entity.layer) {
        return Err(CommandError::LayerMissing(entity.layer));
    }
    if let EntityShape::SketchProfile { closed: true, points } = entity.kind {
        if points < 3 {
            return Err(
                CommandError::InvalidGeometry(
                    "a closed sketch needs at least three points".to_owned(),
                ),
            );
        }
    }
    if let Some(m) = &entity.geometry_fault {
        return Err(CommandError::InvalidGeometry(m.clone()));
    }
    match entity.kind {
        EntityShape::Extrude { profile } => match document.entities.get(&profile) {
            Some(target) => {
                proof {
                    assert(document@.entities.contains_key(profile));
                    assert(document@.entities[profile] == target@);
                }
                if let EntityShape::SketchProfile { closed: true, .. } = target.kind {
                    Ok(())
                } else {
                    Err(
                        CommandError::InvalidReference(
                            "an extrude requires a closed sketch profile".to_owned(),
                        ),
                    )
                }
            },
            None => Err(CommandError::EntityMissing(profile)),
        },
        _ => Ok(()),
    }
}

/// Checks a parameter to be set: a valid id and name, a finite value, and a
/// formula, if any, that parses.
pub fn validate_parameter(parameter: &ParameterRecord) -> (r: Result<(), CommandError>)
    ensures
        result_of(parameter_problem(*parameter), r),
{
    if parameter.id == u64::MAX || !is_valid_parameter_name(parameter.name.as_str())
        || !parameter.value_finite {
        return Err(
            CommandError::InvalidParameter("parameter name and value must be valid".to_owned()),
        );
    }
    if let Some(expression) = &parameter.expression {
        if let Err(error) = expression.parse() {
            return Err(CommandError::InvalidParameter(error.message()));
        }
    }
    Ok(())
}

/// Why sketch point `p` does not resolve in `document`, as text.
pub fn point_fault(p: SketchPoint, document: &CadDocument) -> (r: Option<String>)
    ensures
        text_of(r) == point_problem(p, document@),
{
    let target = match document.entities.get(&p.entity_id) {
        Some(x) => x,
        None => {
            let mut m = String::new();
            push_str(&mut m, "constraint entity ");
            push_decimal(&mut m, p.entity_id);
            push_str(&mut m, " does not exist");
            proof {
                assert(m@ =~= entity_missing_message(p.entity_id));
            }
            return Some(m);
        },
    };
    proof {
        assert(document@.entities[p.entity_id] == target@);
    }
    let fit: Option<bool> = match p.anchor {
        PointAnchor::Start | PointAnchor::End => match target.kind {
            EntityShape::Line | EntityShape::Wall => Some(true),
            _ => None,
        },
        PointAnchor::Center => match target.kind {
            EntityShape::Circle | EntityShape::Arc => Some(true),
            _ => None,
        },
        PointAnchor::Origin => match target.kind {
            EntityShape::Rectangle => Some(true),
            _ => None,
        },
        PointAnchor::Vertex { index } => match target.kind {
            EntityShape::SketchProfile { points, .. } => Some((index as u64) < points),
            _ => None,
        },
        PointAnchor::Insertion => match target.kind {
            EntityShape::Text => Some(true),
            _ => None,
        },
    };
    match fit {
        Some(true) => None,
        Some(false) => {
            let mut m = String::new();
            push_str(&mut m, "constraint anchor ");
            push_anchor(&mut m, p.anchor);
            push_str(&mut m, " is missing on entity ");
            push_decimal(&mut m, p.entity_id);
            proof {
                assert(m@ =~= "constraint anchor "@ + anchor_text(p.anchor) + " is missing on entity "@
                    + decimal(p.entity_id as nat));
            }
            Some(m)
        },
        None => {
            let mut m = String::new();
            push_str(&mut m, "constraint anchor ");
            push_anchor(&mut m, p.anchor);
            push_str(&mut m, " is not supported by entity ");
            push_decimal(&mut m, p.entity_id);
            proof {
                assert(m@ =~= "constraint anchor "@ + anchor_text(p.anchor)
                    + " is not supported by entity "@ + decimal(p.entity_id as nat));
            }
            Some(m)
        },
    }
}

/// Why two points do not make a constraint's points, as text.
pub fn points_fault(first: SketchPoint, second: SketchPoint, document: &CadDocument) -> (r: Option<
    String,
>)
    ensures
        text_of(r) == points_problem(first, second, document@),
{
    if first == second {
        return Some("a constraint must reference two distinct sketch points".to_owned());
    }
    let f = point_fault(first, document);
    if f.is_some() {
        return f;
    }
    point_fault(second, document)
}

/// Checks a constraint against `document`: its id and name, its points or
/// entity, then, for a distance or radius, the fault its dimension has.
pub fn validate_constraint(
    constraint: &SketchConstraint,
    document: &CadDocument,
    dimension_fault: &Option<String>,
) -> (r: Result<(), CommandError>)
    ensures
        match constraint_problem(*constraint, document@, text_of(*dimension_fault)) {
            None => r is Ok,
            Some(m) => r matches Err(CommandError::InvalidConstraint(e)) && e@ == m,
        },
{
    match validate_constraint_header(constraint) {
        Ok(()) => {},
        Err(crate::constraint::ConstraintError::InvalidConstraint(m)) => {
            return Err(CommandError::InvalidConstraint(m));
        },
        Err(_) => {
            proof {
                assert(false);
            }
            return Err(CommandError::InvalidConstraint(String::new()));
        },
    }
    let fault: Option<String> = match &constraint.kind {
        ConstraintKind::Coincident { first, second } => points_fault(*first, *second, document),
        ConstraintKind::Horizontal { segment } => points_fault(segment.start, segment.end, document),
        ConstraintKind::Vertical { segment } => points_fault(segment.start, segment.end, document),
        ConstraintKind::Distance { first, second, value } => {
            let f = points_fault(*first, *second, document);
            if f.is_some() {
                f
            } else {
                copy_text(dimension_fault)
            }
        },
        ConstraintKind::Radius { entity_id, value } => match document.entities.get(entity_id) {
            None => {
                let mut m = String::new();
                push_str(&mut m, "constraint entity ");
                push_decimal(&mut m, *entity_id);
                push_str(&mut m, " does not exist");
                proof {
                    assert(m@ =~= entity_missing_message(*entity_id));
                }
                Some(m)
            },
            Some(target) => {
                proof {
                    assert(document@.entities[*entity_id] == target@);
                }
                match target.kind {
                    EntityShape::Circle | EntityShape::Arc => copy_text(dimension_fault),
                    _ => Some("radius constraints require a circle or arc entity".to_owned()),
                }
            },
        },
    };
    match fault {
        Some(m) => Err(CommandError::InvalidConstraint(m)),
        None => Ok(()),
    }
}

impl CadCommand {
    /// Checks the command against `document` without changing it.
    pub fn validate(&self, document: &CadDocument) -> (r: Result<(), CommandError>)
        ensures
            result_of(command_problem(*self, document@), r),
    {
        match self {
            CadCommand::CreateLayer { layer } => {
                if let Err(e) = validate_layer(layer, &document.layers, None) {
                    return Err(e);
                }
                if document.layers.contains_key(&layer.id) {
                    return Err(CommandError::LayerExists(layer.id));
                }
                Ok(())
            },
            CadCommand::UpdateLayer { layer } => {
                if !document.layers.contains_key(&layer.id) {
                    return Err(CommandError::LayerMissing(layer.id));
                }
                validate_layer(layer, &document.layers, Some(layer.id))
            },
            CadCommand::DeleteLayer { id } => {
                if !document.layers.contains_key(id) {
                    return Err(CommandError::LayerMissing(*id));
                }
                if document.layers.len() == 1 {
                    return Err(
                        CommandError::InvalidLayer(
                            "a document must retain at least one layer".to_owned(),
                        ),
                    );
                }
                if layer_has_entities(document, *id) {
                    let mut m = String::new();
                    push_str(&mut m, "layer ");
                    push_decimal(&mut m, *id);
                    push_str(&mut m, " must be empty before it can be deleted");
                    proof {
                        assert(m@ =~= layer_not_empty_message(*id));
                    }
                    return Err(CommandError::InvalidLayer(m));
                }
                Ok(())
            },
            CadCommand::CreateEntity { entity } => {
                if document.entities.contains_key(&entity.id) {
                    return Err(CommandError::EntityExists(entity.id));
                }
                if let Err(e) = validate_entity(entity, document) {
                    return Err(e);
                }
                require_unlocked_layer(document, entity.layer)
            },
            CadCommand::UpdateEntity { entity } => {
                let existing = match document.entities.get(&entity.id) {
                    Some(x) => x,
                    None => {
                        return Err(CommandError::EntityMissing(entity.id));
                    },
                };
                proof {
                    assert(document@.entities[entity.id] == existing@);
                }
                if let Err(e) = require_unlocked_layer(document, existing.layer) {
                    return Err(e);
                }
                if let Err(e) = validate_entity(entity, document) {
                    return Err(e);
                }
                require_unlocked_layer(document, entity.layer)
            },
            CadCommand::DeleteEntity { id } => {
                let existing = match document.entities.get(id) {
                    Some(x) => x,
                    None => {
                        return Err(CommandError::EntityMissing(*id));
                    },
                };
                proof {
                    assert(document@.entities[*id] == existing@);
                }
                require_unlocked_layer(document, existing.layer)
            },
            CadCommand::SetParameter { parameter } => validate_parameter(parameter),
            CadCommand::DeleteParameter { id } => {
                if document.parameters.contains_key(id) {
                    Ok(())
                } else {
                    let mut m = String::new();
                    push_str(&mut m, "parameter ");
                    push_decimal(&mut m, *id);
                    push_str(&mut m, " does not exist");
                    proof {
                        assert(m@ =~= missing_parameter_message(*id));
                    }
                    Err(CommandError::InvalidParameter(m))
                }
            },
            CadCommand::CreateConstraint { constraint, dimension_fault } => {
                if document.constraints.contains_key(&constraint.id) {
                    return Err(CommandError::ConstraintExists(constraint.id));
                }
                validate_constraint(constraint, document, dimension_fault)
            },
            CadCommand::UpdateConstraint { constraint, dimension_fault } => {
                if !document.constraints.contains_key(&constraint.id) {
                    return Err(CommandError::ConstraintMissing(constraint.id));
                }
                validate_constraint(constraint, document, dimension_fault)
            },
            CadCommand::DeleteConstraint { id } => {
                if document.constraints.contains_key(id) {
                    Ok(())
                } else {
                    Err(CommandError::ConstraintMissing(*id))
                }
            },
        }
    }
}


// ---------------------------------------------------------------------------
// The document as a whole
// ---------------------------------------------------------------------------

/// What only the host can decide about a whole document, from its
/// floating-point contents.
pub struct DocumentFacts {
    /// What evaluating every parameter to document units reports, when it
    /// fails (an unknown name, a cycle, a division by zero, ...).
    pub evaluation_fault: Option<String>,
    /// What evaluating each distance or radius constraint's dimension
    /// reports, by constraint id, for the constraints where it fails.
    pub dimension_faults: BTreeMap<ConstraintId, String>,
}

/// The first fault of entries `i..n`, entry by entry.
pub open spec fn first_fault(n: int, f: spec_fn(int) -> Option<CommandFault>, i: int) -> Option<
    CommandFault,
>
    decreases n - i,
{
    if i < 0 || i >= n {
        None
    } else if f(i) is Some {
        f(i)
    } else {
        first_fault(n, f, i + 1)
    }
}

pub proof fn lemma_first_fault_step(n: int, f: spec_fn(int) -> Option<CommandFault>, i: int)
    requires
        0 <= i < n,
        f(i) is None,
    ensures
        first_fault(n, f, i) == first_fault(n, f, i + 1),
{
}

/// `"{head}{key}{middle}{id}"`: a table entry whose key is not its id.
pub open spec fn key_mismatch(head: Seq<char>, key: u64, middle: Seq<char>, id: u64) -> Seq<char> {
    head + decimal(key as nat) + middle + decimal(id as nat)
}

pub open spec fn layers_problem(schema: u32, layers: Map<LayerId, Layer>) -> Option<CommandFault> {
    if schema != CURRENT_SCHEMA_VERSION {
        Some(CommandFault::UnsupportedSchemaVersion(schema))
    } else if entries(layers).len() == 0 {
        Some(CommandFault::InvalidDocument("a document must contain at least one layer"@))
    } else {
        match layer_table_problem_from(entries(layers), 0) {
            None => None,
            Some((true, m)) => Some(CommandFault::InvalidLayer(m)),
            Some((false, m)) => Some(CommandFault::InvalidDocument(m)),
        }
    }
}

pub open spec fn parameter_entry_problem(ps: Seq<(ParameterId, ParameterRecord)>, i: int) -> Option<
    CommandFault,
> {
    let key = ps[i].0;
    let p = ps[i].1;
    if key != p.id {
        Some(CommandFault::InvalidDocument(key_mismatch("parameter map key "@, key, " does not match parameter id "@, p.id)))
    } else if p.id == u64::MAX || !valid_parameter_name(utf8(p.name@)) || !p.value_finite {
        Some(CommandFault::InvalidDocument("parameter ids, names, and values must be valid"@))
    } else if exists|j: int| 0 <= j < i && (#[trigger] ps[j]).1.name@ == p.name@ {
        Some(CommandFault::InvalidParameter("parameter name "@ + p.name@ + " is not unique"@))
    } else {
        None
    }
}

pub open spec fn parameters_problem(d: DocumentView) -> Option<CommandFault> {
    let ps = entries(d.parameters);
    first_fault(ps.len() as int, |i: int| parameter_entry_problem(ps, i), 0)
}

/// The first of `refs`, from position `j` on, that `parameters` lacks.
pub open spec fn first_missing(refs: Seq<ParameterId>, parameters: Map<ParameterId, ParameterRecord>, j: int) -> Option<
    ParameterId,
>
    decreases refs.len() - j,
{
    if j < 0 || j >= refs.len() {
        None
    } else if !parameters.contains_key(refs[j]) {
        Some(refs[j])
    } else {
        first_missing(refs, parameters, j + 1)
    }
}

pub open spec fn missing_reference_message(entity: EntityId, parameter: ParameterId) -> Seq<char> {
    "entity "@ + decimal(entity as nat) + " references missing parameter "@ + decimal(
        parameter as nat,
    )
}

pub open spec fn entity_entry_problem(es: Seq<(EntityId, EntityView)>, i: int, d: DocumentView) -> Option<
    CommandFault,
> {
    let key = es[i].0;
    let e = es[i].1;
    if key != e.id {
        Some(CommandFault::InvalidDocument(key_mismatch("entity map key "@, key, " does not match entity id "@, e.id)))
    } else if e.id == u64::MAX {
        Some(CommandFault::InvalidDocument("entity id space is exhausted"@))
    } else if entity_problem(e, d) is Some {
        entity_problem(e, d)
    } else {
        match first_missing(e.parameter_refs, d.parameters, 0) {
            Some(p) => Some(CommandFault::InvalidReference(missing_reference_message(e.id, p))),
            None => None,
        }
    }
}

pub open spec fn entities_problem(d: DocumentView) -> Option<CommandFault> {
    let es = entries(d.entities);
    first_fault(es.len() as int, |i: int| entity_entry_problem(es, i, d), 0)
}

/// The dimension fault the host reported for constraint `id`, if any.
pub open spec fn reported_fault(faults: Map<ConstraintId, String>, id: ConstraintId) -> Option<
    Seq<char>,
> {
    if faults.contains_key(id) {
        Some(faults[id]@)
    } else {
        None
    }
}

pub open spec fn constraint_entry_problem(
    cs: Seq<(ConstraintId, SketchConstraint)>,
    i: int,
    d: DocumentView,
    faults: Map<ConstraintId, String>,
) -> Option<CommandFault> {
    let key = cs[i].0;
    let c = cs[i].1;
    if key != c.id {
        Some(CommandFault::InvalidDocument(key_mismatch("constraint map key "@, key, " does not match constraint id "@, c.id)))
    } else {
        match constraint_problem(c, d, reported_fault(faults, c.id)) {
            Some(m) => Some(CommandFault::InvalidConstraint(m)),
            None => None,
        }
    }
}

pub open spec fn constraints_problem(d: DocumentView, faults: Map<ConstraintId, String>) -> Option<
    CommandFault,
> {
    let cs = entries(d.constraints);
    first_fault(cs.len() as int, |i: int| constraint_entry_problem(cs, i, d, faults), 0)
}

pub open spec fn keys_of<V>(m: Map<u64, V>) -> Seq<u64> {
    entries(m).map_values(|e: (u64, V)| e.0)
}

pub open spec fn next_id_problem(kind: Seq<char>, next: u64, ids: Seq<u64>) -> Option<CommandFault> {
    match next_after(kind, ids) {
        Err(m) => Some(CommandFault::InvalidDocument(m)),
        Ok(required) => if next < required {
            Some(CommandFault::InvalidDocument(behind_message(kind, next)))
        } else {
            None
        },
    }
}

/// Why document `d` is not valid, given the host's facts about it: the
/// schema and layer table, then the parameters, their evaluation as the
/// host reports it, and whether their formulas resolve at all (a cycle or an
/// unknown name is refused here whatever the host reports), then each entity
/// and each constraint in id order, then the next ids.
pub open spec fn document_problem(d: DocumentView, facts: DocumentFacts) -> Option<CommandFault> {
    if layers_problem(d.schema_version, d.layers) is Some {
        layers_problem(d.schema_version, d.layers)
    } else if parameters_problem(d) is Some {
        parameters_problem(d)
    } else if facts.evaluation_fault is Some {
        Some(CommandFault::InvalidParameter(facts.evaluation_fault->0@))
    } else if formula_problem(d) is Some {
        formula_problem(d)
    } else if entities_problem(d) is Some {
        entities_problem(d)
    } else if constraints_problem(d, facts.dimension_faults@) is Some {
        constraints_problem(d, facts.dimension_faults@)
    } else if next_id_problem("layer"@, d.next_layer_id, keys_of(d.layers)) is Some {
        next_id_problem("layer"@, d.next_layer_id, keys_of(d.layers))
    } else if next_id_problem("entity"@, d.next_entity_id, keys_of(d.entities)) is Some {
        next_id_problem("entity"@, d.next_entity_id, keys_of(d.entities))
    } else if next_id_problem("parameter"@, d.next_parameter_id, keys_of(d.parameters)) is Some {
        next_id_problem("parameter"@, d.next_parameter_id, keys_of(d.parameters))
    } else {
        next_id_problem("constraint"@, d.next_constraint_id, keys_of(d.constraints))
    }
}

/// The entries of the entity views are those of the records, viewed.
pub proof fn lemma_entity_entries(m: Map<EntityId, EntityRecord>)
    requires
        lists_in_order(entries(m), m),
    ensures
        entries(entity_views(m)) == entries(m).map_values(|e: (EntityId, EntityRecord)| (e.0, e.1@)),
        lists_in_order(entries(entity_views(m)), entity_views(m)),
{
    let s = entries(m);
    let t = s.map_values(|e: (EntityId, EntityRecord)| (e.0, e.1@));
    let v = entity_views(m);
    assert forall|i: int, j: int| 0 <= i < j < t.len() implies #[trigger] t[i].0 < #[trigger] t[j].0 by {
        assert(s[i].0 < s[j].0);
    }
    assert forall|i: int| 0 <= i < t.len() implies #[trigger] v.contains_key(t[i].0) && v[t[i].0]
        == t[i].1 by {
        assert(m.contains_key(s[i].0));
    }
    assert forall|k: EntityId| #[trigger] v.contains_key(k) implies exists|i: int|
        0 <= i < t.len() && t[i].0 == k by {
        assert(m.contains_key(k));
        let i = choose|i: int| 0 <= i < s.len() && s[i].0 == k;
        assert(t[i].0 == k);
    }
    assert(lists_in_order(t, v));
    lemma_listing_unique(t, entries(v), v);
}

/// The keys listed are those of the map.
pub proof fn lemma_keys_of<V>(m: Map<u64, V>)
    requires
        lists_in_order(entries(m), m),
    ensures
        forall|k: u64| #[trigger] keys_of(m).contains(k) <==> m.contains_key(k),
{
    assert forall|k: u64| #[trigger] keys_of(m).contains(k) <==> m.contains_key(k) by {
        if m.contains_key(k) {
            let i = choose|i: int| 0 <= i < entries(m).len() && entries(m)[i].0 == k;
            assert(keys_of(m)[i] == k);
        }
        if keys_of(m).contains(k) {
            let i = choose|i: int| 0 <= i < keys_of(m).len() && keys_of(m)[i] == k;
            assert(m.contains_key(entries(m)[i].0));
        }
    }
}

/// The keys of `m` in increasing order.
pub fn key_list<V>(m: &BTreeMap<u64, V>) -> (ks: Vec<u64>)
    ensures
        ks@ == keys_of(m@),
        lists_in_order(entries(m@), m@),
{
    let all = entry_refs(m);
    let mut ks: Vec<u64> = Vec::new();
    let mut i: usize = 0;
    while i < all.len()
        invariant
            i <= all@.len(),
            all@.len() == entries(m@).len(),
            forall|j: int| 0 <= j < all@.len() ==> (#[trigger] all@[j]).0 == entries(m@)[j].0,
            ks@.len() == i,
            forall|j: int| 0 <= j < i ==> ks@[j] == entries(m@)[j].0,
        decreases all@.len() - i,
    {
        ks.push(all[i].0);
        i += 1;
    }
    proof {
        assert(ks@ =~= keys_of(m@));
    }
    ks
}

// ---------------------------------------------------------------------------
// Formula resolution
// ---------------------------------------------------------------------------

/// The parameter names a parameter's formula refers to (none for a literal).
pub open spec fn formula_names(p: ParameterRecord) -> Set<Seq<char>> {
    match p.expression {
        Some(x) => match check_source(x@) {
            Ok(e) => expression_names(e, utf8(x@)),
            Err(_) => Set::empty(),
        },
        None => Set::empty(),
    }
}

/// Some parameter at a position in `done` is named `n`.
pub open spec fn names_done(ps: Seq<(ParameterId, ParameterRecord)>, done: Set<int>, n: Seq<char>) -> bool {
    exists|j: int| 0 <= j < ps.len() && done.contains(j) && (#[trigger] ps[j].1.name@) == n
}

/// Every name in parameter `i`'s formula names a parameter in `done`.
pub open spec fn resolves_from(ps: Seq<(ParameterId, ParameterRecord)>, done: Set<int>, i: int) -> bool {
    forall|n: Seq<char>| #[trigger] formula_names(ps[i].1).contains(n) ==> names_done(ps, done, n)
}

/// The positions of the parameters whose value follows from literals in at
/// most `k` steps: a literal in one, a formula once every name it refers to
/// names such a parameter.
pub open spec fn resolved_after(ps: Seq<(ParameterId, ParameterRecord)>, k: nat) -> Set<int>
    decreases k,
{
    if k == 0 {
        Set::empty()
    } else {
        let done = resolved_after(ps, (k - 1) as nat);
        Set::new(|i: int| 0 <= i < ps.len() && resolves_from(ps, done, i))
    }
}

/// The first position, from `i` on, outside `done`.
pub open spec fn first_outside(n: int, done: Set<int>, i: int) -> Option<int>
    decreases n - i,
{
    if i < 0 || i >= n {
        None
    } else if !done.contains(i) {
        Some(i)
    } else {
        first_outside(n, done, i + 1)
    }
}

pub open spec fn unresolvable_message(name: Seq<char>) -> Seq<char> {
    "parameter "@ + name + " cannot be resolved from literal values"@
}

/// Why the parameter formulas cannot all be evaluated, whatever the
/// arithmetic gives: the first parameter, in id order, that a formula cycle
/// or a name that no parameter bears keeps from being resolved.
pub open spec fn formula_problem(d: DocumentView) -> Option<CommandFault> {
    let ps = entries(d.parameters);
    match first_outside(ps.len() as int, resolved_after(ps, ps.len()), 0) {
        Some(i) => Some(CommandFault::InvalidParameter(unresolvable_message(ps[i].1.name@))),
        None => None,
    }
}

fn formula_dependencies(p: &ParameterRecord) -> (names: Vec<String>)
    ensures
        string_views(names@).to_set() == formula_names(*p),
{
    match &p.expression {
        Some(x) => match x.dependencies() {
            Ok(v) => v,
            Err(_) => {
                let v: Vec<String> = Vec::new();
                proof {
                    assert(string_views(v@).to_set() =~= Set::<Seq<char>>::empty());
                }
                v
            },
        },
        None => {
            let v: Vec<String> = Vec::new();
            proof {
                assert(string_views(v@).to_set() =~= Set::<Seq<char>>::empty());
            }
            v
        },
    }
}

/// Whether some parameter marked done bears `name`.
fn name_done(all: &Vec<(ParameterId, &ParameterRecord)>, flags: &Vec<bool>, name: &str, Ghost(ps): Ghost<Seq<(ParameterId, ParameterRecord)>>, Ghost(done): Ghost<Set<int>>) -> (r: bool)
    requires
        all@.len() == ps.len() == flags@.len(),
        forall|j: int| 0 <= j < all@.len() ==> *(#[trigger] all@[j]).1 == ps[j].1,
        forall|j: int| 0 <= j < flags@.len() ==> (#[trigger] flags@[j] <==> done.contains(j)),
    ensures
        r == names_done(ps, done, name@),
{
    let mut j: usize = 0;
    while j < all.len()
        invariant
            j <= all@.len(),
            all@.len() == ps.len() == flags@.len(),
            forall|q: int| 0 <= q < all@.len() ==> *(#[trigger] all@[q]).1 == ps[q].1,
            forall|q: int| 0 <= q < flags@.len() ==> (#[trigger] flags@[q] <==> done.contains(q)),
            forall|q: int| 0 <= q < j ==> !(done.contains(q) && (#[trigger] ps[q].1.name@) == name@),
        decreases all@.len() - j,
    {
        if flags[j] && str_equal(all[j].1.name.as_str(), name) {
            proof {
                assert(ps[j as int].1.name@ == name@);
            }
            return true;
        }
        j += 1;
    }
    false
}

/// Marks the parameters whose formulas resolve from those marked in `flags`.
fn resolve_round(all: &Vec<(ParameterId, &ParameterRecord)>, deps: &Vec<Vec<String>>, flags: &Vec<bool>, Ghost(ps): Ghost<Seq<(ParameterId, ParameterRecord)>>, Ghost(done): Ghost<Set<int>>) -> (next: Vec<bool>)
    requires
        all@.len() == ps.len() == flags@.len() == deps@.len(),
        forall|j: int| 0 <= j < all@.len() ==> *(#[trigger] all@[j]).1 == ps[j].1,
        forall|j: int| 0 <= j < deps@.len() ==> string_views((#[trigger] deps@[j])@).to_set() == formula_names(ps[j].1),
        forall|j: int| 0 <= j < flags@.len() ==> (#[trigger] flags@[j] <==> done.contains(j)),
    ensures
        next@.len() == flags@.len(),
        forall|i: int| 0 <= i < next@.len() ==> (#[trigger] next@[i] <==> resolves_from(ps, done, i)),
{
    let mut next: Vec<bool> = Vec::new();
    let mut i: usize = 0;
    while i < deps.len()
        invariant
            i <= deps@.len(),
            all@.len() == ps.len() == flags@.len() == deps@.len(),
            forall|j: int| 0 <= j < all@.len() ==> *(#[trigger] all@[j]).1 == ps[j].1,
            forall|j: int| 0 <= j < deps@.len() ==> string_views((#[trigger] deps@[j])@).to_set() == formula_names(ps[j].1),
            forall|j: int| 0 <= j < flags@.len() ==> (#[trigger] flags@[j] <==> done.contains(j)),
            next@.len() == i,
            forall|q: int| 0 <= q < i ==> (#[trigger] next@[q] <==> resolves_from(ps, done, q)),
        decreases deps@.len() - i,
    {
        let names = &deps[i];
        let ghost set = formula_names(ps[i as int].1);
        let mut ok = true;
        let mut k: usize = 0;
        while k < names.len()
            invariant
                k <= names@.len(),
                *names == deps@[i as int],
                i < deps@.len(),
                all@.len() == ps.len() == flags@.len() == deps@.len(),
                forall|j: int| 0 <= j < all@.len() ==> *(#[trigger] all@[j]).1 == ps[j].1,
                forall|j: int| 0 <= j < flags@.len() ==> (#[trigger] flags@[j] <==> done.contains(j)),
                ok == forall|q: int| 0 <= q < k ==> names_done(ps, done, #[trigger] names@[q]@),
            decreases names@.len() - k,
        {
            let found = name_done(all, flags, names[k].as_str(), Ghost(ps), Ghost(done));
            ok = ok && found;
            k += 1;
        }
        proof {
            let sv = string_views(names@);
            assert(sv.to_set() == set);
            if ok {
                assert forall|n: Seq<char>| #[trigger] set.contains(n) implies names_done(ps, done, n) by {
                    assert(sv.to_set().contains(n));
                    let q = choose|q: int| 0 <= q < sv.len() && sv[q] == n;
                    assert(names@[q]@ == n);
                }
            } else {
                let q = choose|q: int| 0 <= q < names@.len() && !names_done(ps, done, #[trigger] names@[q]@);
                assert(sv[q] == names@[q]@);
                assert(sv.to_set().contains(sv[q]));
            }
        }
        next.push(ok);
        i += 1;
    }
    next
}

/// Refuses parameter formulas that cannot all be evaluated whatever the
/// arithmetic gives: a formula cycle, or a name no parameter bears.
pub fn validate_formula_graph(document: &CadDocument) -> (r: Result<(), CommandError>)
    ensures
        result_of(formula_problem(document@), r),
{
    let all = entry_refs(&document.parameters);
    let ghost ps = entries(document.parameters@);
    let mut deps: Vec<Vec<String>> = Vec::new();
    let mut i: usize = 0;
    while i < all.len()
        invariant
            i <= all@.len(),
            all@.len() == ps.len(),
            ps == entries(document.parameters@),
            forall|j: int| 0 <= j < all@.len() ==> *(#[trigger] all@[j]).1 == ps[j].1,
            deps@.len() == i,
            forall|j: int| 0 <= j < i ==> string_views((#[trigger] deps@[j])@).to_set() == formula_names(ps[j].1),
        decreases all@.len() - i,
    {
        deps.push(formula_dependencies(all[i].1));
        i += 1;
    }
    let mut flags: Vec<bool> = Vec::new();
    let mut i: usize = 0;
    while i < all.len()
        invariant
            i <= all@.len(),
            flags@.len() == i,
            forall|j: int| 0 <= j < i ==> !(#[trigger] flags@[j]),
        decreases all@.len() - i,
    {
        flags.push(false);
        i += 1;
    }
    proof {
        assert forall|j: int| 0 <= j < flags@.len() implies (#[trigger] flags@[j] <==> resolved_after(ps, 0).contains(j)) by {}
    }
    let mut round: usize = 0;
    while round < all.len()
        invariant
            round <= all@.len(),
            all@.len() == ps.len() == flags@.len() == deps@.len(),
            ps == entries(document.parameters@),
            forall|j: int| 0 <= j < all@.len() ==> *(#[trigger] all@[j]).1 == ps[j].1,
            forall|j: int| 0 <= j < deps@.len() ==> string_views((#[trigger] deps@[j])@).to_set() == formula_names(ps[j].1),
            forall|j: int| 0 <= j < flags@.len() ==> (#[trigger] flags@[j] <==> resolved_after(ps, round as nat).contains(j)),
        decreases all@.len() - round,
    {
        let next = resolve_round(&all, &deps, &flags, Ghost(ps), Ghost(resolved_after(ps, round as nat)));
        flags = next;
        round += 1;
    }
    let ghost done = resolved_after(ps, ps.len());
    let mut i: usize = 0;
    while i < flags.len()
        invariant
            i <= flags@.len(),
            all@.len() == ps.len() == flags@.len(),
            ps == entries(document.parameters@),
            done == resolved_after(ps, ps.len()),
            forall|j: int| 0 <= j < all@.len() ==> *(#[trigger] all@[j]).1 == ps[j].1,
            forall|j: int| 0 <= j < flags@.len() ==> (#[trigger] flags@[j] <==> done.contains(j)),
            first_outside(ps.len() as int, done, 0) == first_outside(ps.len() as int, done, i as int),
        decreases flags@.len() - i,
    {
        if !flags[i] {
            let mut m = String::new();
            push_str(&mut m, "parameter ");
            push_str(&mut m, all[i].1.name.as_str());
            push_str(&mut m, " cannot be resolved from literal values");
            proof {
                assert(m@ =~= unresolvable_message(ps[i as int].1.name@));
            }
            return Err(CommandError::InvalidParameter(m));
        }
        i += 1;
    }
    Ok(())
}


/// Checks the parameter table in id order.
pub fn validate_parameter_table(document: &CadDocument) -> (r: Result<(), CommandError>)
    ensures
        result_of(parameters_problem(document@), r),
{
    let all = entry_refs(&document.parameters);
    let ghost ps = entries(document.parameters@);
    let ghost f = |i: int| parameter_entry_problem(ps, i);
    let mut i: usize = 0;
    while i < all.len()
        invariant
            i <= all@.len(),
            all@.len() == ps.len(),
            forall|j: int| 0 <= j < all@.len() ==> (#[trigger] all@[j]).0 == ps[j].0 && *all@[j].1 == ps[j].1,
            ps == entries(document.parameters@),
            f == (|i: int| parameter_entry_problem(ps, i)),
            parameters_problem(document@) == first_fault(ps.len() as int, f, i as int),
        decreases all@.len() - i,
    {
        let key = all[i].0;
        let p: &ParameterRecord = all[i].1;
        if key != p.id {
            let mut m = String::new();
            push_str(&mut m, "parameter map key ");
            push_decimal(&mut m, key);
            push_str(&mut m, " does not match parameter id ");
            push_decimal(&mut m, p.id);
            proof {
                assert(m@ =~= key_mismatch("parameter map key "@, key, " does not match parameter id "@, p.id));
            }
            return Err(CommandError::InvalidDocument(m));
        }
        if p.id == u64::MAX || !is_valid_parameter_name(p.name.as_str()) || !p.value_finite {
            return Err(
                CommandError::InvalidDocument(
                    "parameter ids, names, and values must be valid".to_owned(),
                ),
            );
        }
        let mut j: usize = 0;
        while j < i
            invariant
                j <= i < all@.len(),
                all@.len() == ps.len(),
                forall|q: int| 0 <= q < all@.len() ==> (#[trigger] all@[q]).0 == ps[q].0 && *all@[q].1 == ps[q].1,
                *p == ps[i as int].1,
                key == ps[i as int].0,
                key == p.id,
                !(p.id == u64::MAX || !valid_parameter_name(utf8(p.name@)) || !p.value_finite),
                ps == entries(document.parameters@),
                f == (|i: int| parameter_entry_problem(ps, i)),
                parameters_problem(document@) == first_fault(ps.len() as int, f, i as int),
                forall|q: int| 0 <= q < j ==> (#[trigger] ps[q]).1.name@ != p.name@,
            decreases i - j,
        {
            if str_equal(all[j].1.name.as_str(), p.name.as_str()) {
                let mut m = String::new();
                push_str(&mut m, "parameter name ");
                push_str(&mut m, p.name.as_str());
                push_str(&mut m, " is not unique");
                proof {
                    assert(ps[j as int].1.name@ == p.name@);
                    assert(m@ =~= "parameter name "@ + p.name@ + " is not unique"@);
                    assert(parameter_entry_problem(ps, i as int) == Some(
                        CommandFault::InvalidParameter(m@),
                    ));
                }
                return Err(CommandError::InvalidParameter(m));
            }
            j += 1;
        }
        proof {
            assert(parameter_entry_problem(ps, i as int) is None);
            lemma_first_fault_step(ps.len() as int, f, i as int);
        }
        i += 1;
    }
    Ok(())
}

/// The first of `refs` that the document has no parameter for.
pub fn find_missing_parameter(refs: &Vec<ParameterId>, document: &CadDocument) -> (r: Option<
    ParameterId,
>)
    ensures
        r == first_missing(refs@, document@.parameters, 0),
{
    let mut j: usize = 0;
    while j < refs.len()
        invariant
            j <= refs@.len(),
            first_missing(refs@, document@.parameters, 0) == first_missing(
                refs@,
                document@.parameters,
                j as int,
            ),
        decreases refs@.len() - j,
    {
        if !document.parameters.contains_key(&refs[j]) {
            return Some(refs[j]);
        }
        j += 1;
    }
    None
}

/// Checks the entity table in id order.
pub fn validate_entity_table(document: &CadDocument) -> (r: Result<(), CommandError>)
    ensures
        result_of(entities_problem(document@), r),
{
    let all = entry_refs(&document.entities);
    proof {
        lemma_entity_entries(document.entities@);
    }
    let ghost es = entries(document@.entities);
    let ghost d = document@;
    let ghost f = |i: int| entity_entry_problem(es, i, d);
    let mut i: usize = 0;
    while i < all.len()
        invariant
            i <= all@.len(),
            all@.len() == es.len(),
            forall|j: int| 0 <= j < all@.len() ==> (#[trigger] all@[j]).0 == es[j].0 && (*all@[j].1)@ == es[j].1,
            d == document@,
            es == entries(d.entities),
            f == (|i: int| entity_entry_problem(es, i, d)),
            entities_problem(d) == first_fault(es.len() as int, f, i as int),
        decreases all@.len() - i,
    {
        let key = all[i].0;
        let e: &EntityRecord = all[i].1;
        if key != e.id {
            let mut m = String::new();
            push_str(&mut m, "entity map key ");
            push_decimal(&mut m, key);
            push_str(&mut m, " does not match entity id ");
            push_decimal(&mut m, e.id);
            proof {
                assert(m@ =~= key_mismatch("entity map key "@, key, " does not match entity id "@, e.id));
            }
            return Err(CommandError::InvalidDocument(m));
        }
        if e.id == u64::MAX {
            return Err(CommandError::InvalidDocument("entity id space is exhausted".to_owned()));
        }
        if let Err(x) = validate_entity(e, document) {
            return Err(x);
        }
        if let Some(p) = find_missing_parameter(&e.parameter_refs, document) {
            let mut m = String::new();
            push_str(&mut m, "entity ");
            push_decimal(&mut m, e.id);
            push_str(&mut m, " references missing parameter ");
            push_decimal(&mut m, p);
            proof {
                assert(m@ =~= missing_reference_message(e.id, p));
            }
            return Err(CommandError::InvalidReference(m));
        }
        proof {
            lemma_first_fault_step(es.len() as int, f, i as int);
        }
        i += 1;
    }
    Ok(())
}

/// Checks the constraint table in id order.
pub fn validate_constraint_table(document: &CadDocument, facts: &DocumentFacts) -> (r: Result<
    (),
    CommandError,
>)
    ensures
        result_of(constraints_problem(document@, facts.dimension_faults@), r),
{
    let all = entry_refs(&document.constraints);
    let ghost cs = entries(document.constraints@);
    let ghost faults = facts.dimension_faults@;
    let ghost d = document@;
    let ghost f = |i: int| constraint_entry_problem(cs, i, d, faults);
    let mut i: usize = 0;
    while i < all.len()
        invariant
            i <= all@.len(),
            all@.len() == cs.len(),
            forall|j: int| 0 <= j < all@.len() ==> (#[trigger] all@[j]).0 == cs[j].0 && *all@[j].1 == cs[j].1,
            cs == entries(document@.constraints),
            faults == facts.dimension_faults@,
            d == document@,
            f == (|i: int| constraint_entry_problem(cs, i, d, faults)),
            constraints_problem(document@, faults) == first_fault(cs.len() as int, f, i as int),
        decreases all@.len() - i,
    {
        let key = all[i].0;
        let c: &SketchConstraint = all[i].1;
        if key != c.id {
            let mut m = String::new();
            push_str(&mut m, "constraint map key ");
            push_decimal(&mut m, key);
            push_str(&mut m, " does not match constraint id ");
            push_decimal(&mut m, c.id);
            proof {
                assert(m@ =~= key_mismatch("constraint map key "@, key, " does not match constraint id "@, c.id));
            }
            return Err(CommandError::InvalidDocument(m));
        }
        let fault: Option<String> = match facts.dimension_faults.get(&c.id) {
            Some(m) => Some(m.clone()),
            None => None,
        };
        proof {
            assert(text_of(fault) == reported_fault(faults, c.id));
        }
        if let Err(x) = validate_constraint(c, document, &fault) {
            return Err(x);
        }
        proof {
            lemma_first_fault_step(cs.len() as int, f, i as int);
        }
        i += 1;
    }
    Ok(())
}

impl CadDocument {
    /// Validates the document as a whole, including what can only be checked
    /// once a multi-command transaction has completed.
    pub fn validate(&self, facts: &DocumentFacts) -> (r: Result<(), CommandError>)
        ensures
            result_of(document_problem(self@, *facts), r),
    {
        let all = entry_refs(&self.layers);
        let mut pairs: Vec<(LayerId, Layer)> = Vec::new();
        let mut i: usize = 0;
        while i < all.len()
            invariant
                i <= all@.len(),
                all@.len() == entries(self.layers@).len(),
                forall|j: int| 0 <= j < all@.len() ==> (#[trigger] all@[j]).0 == entries(self.layers@)[j].0
                    && *all@[j].1 == entries(self.layers@)[j].1,
                pairs@.len() == i,
                forall|j: int| 0 <= j < i ==> pairs@[j] == entries(self.layers@)[j],
            decreases all@.len() - i,
        {
            pairs.push((all[i].0, all[i].1.copy()));
            i += 1;
        }
        proof {
            assert(pairs@ =~= entries(self.layers@));
        }
        if let Err(e) = validate_layer_table(self.schema_version, &pairs) {
            return Err(e);
        }
        if let Err(e) = validate_parameter_table(self) {
            return Err(e);
        }
        if let Some(m) = &facts.evaluation_fault {
            return Err(CommandError::InvalidParameter(m.clone()));
        }
        if let Err(e) = validate_formula_graph(self) {
            return Err(e);
        }
        if let Err(e) = validate_entity_table(self) {
            return Err(e);
        }
        if let Err(e) = validate_constraint_table(self, facts) {
            return Err(e);
        }
        let layer_ids = key_list(&self.layers);
        if let Err(e) = validate_next_id("layer", self.next_layer_id, &layer_ids) {
            return Err(e);
        }
        let entity_ids = key_list(&self.entities);
        proof {
            lemma_entity_entries(self.entities@);
            assert(keys_of(self@.entities) =~= keys_of(self.entities@));
        }
        if let Err(e) = validate_next_id("entity", self.next_entity_id, &entity_ids) {
            return Err(e);
        }
        let parameter_ids = key_list(&self.parameters);
        if let Err(e) = validate_next_id("parameter", self.next_parameter_id, &parameter_ids) {
            return Err(e);
        }
        let constraint_ids = key_list(&self.constraints);
        validate_next_id("constraint", self.next_constraint_id, &constraint_ids)
    }
}


/// The document with each next id set past the ids in use, table by table;
/// the first table whose ids are exhausted stops it, with the fault.
pub open spec fn normalized(d: DocumentView) -> (DocumentView, Option<CommandFault>) {
    match next_after("layer"@, keys_of(d.layers)) {
        Err(m) => (d, Some(CommandFault::InvalidDocument(m))),
        Ok(l) => {
            let d1 = DocumentView { next_layer_id: l, ..d };
            match next_after("entity"@, keys_of(d.entities)) {
                Err(m) => (d1, Some(CommandFault::InvalidDocument(m))),
                Ok(e) => {
                    let d2 = DocumentView { next_entity_id: e, ..d1 };
                    match next_after("parameter"@, keys_of(d.parameters)) {
                        Err(m) => (d2, Some(CommandFault::InvalidDocument(m))),
                        Ok(p) => {
                            let d3 = DocumentView { next_parameter_id: p, ..d2 };
                            match next_after("constraint"@, keys_of(d.constraints)) {
                                Err(m) => (d3, Some(CommandFault::InvalidDocument(m))),
                                Ok(c) => (DocumentView { next_constraint_id: c, ..d3 }, None),
                            }
                        },
                    }
                },
            }
        },
    }
}

impl CadDocument {
    /// Upgrades a document of an earlier schema in place (the current schema,
    /// next ids recomputed from the ids in use), refuses one of a later
    /// schema, and validates the result.
    pub fn migrate_to_current(&mut self, facts: &DocumentFacts) -> (r: Result<(), CommandError>)
        ensures
            old(self)@.schema_version > CURRENT_SCHEMA_VERSION ==> (r matches Err(e) && e@
                == CommandFault::UnsupportedSchemaVersion(old(self)@.schema_version)) && final(self)@
                == old(self)@,
            old(self)@.schema_version == CURRENT_SCHEMA_VERSION ==> final(self)@ == old(self)@
                && result_of(document_problem(old(self)@, *facts), r),
            old(self)@.schema_version < CURRENT_SCHEMA_VERSION ==> ({
                let (d, fault) = normalized(
                    DocumentView { schema_version: CURRENT_SCHEMA_VERSION, ..old(self)@ },
                );
                final(self)@ == d && match fault {
                    Some(f) => r matches Err(e) && e@ == f,
                    None => result_of(document_problem(d, *facts), r),
                }
            }),
    {
        if self.schema_version > CURRENT_SCHEMA_VERSION {
            return Err(CommandError::UnsupportedSchemaVersion(self.schema_version));
        }
        if self.schema_version < CURRENT_SCHEMA_VERSION {
            self.schema_version = CURRENT_SCHEMA_VERSION;
            if let Err(e) = self.normalize_next_ids() {
                return Err(e);
            }
        }
        self.validate(facts)
    }

    fn normalize_next_ids(&mut self) -> (r: Result<(), CommandError>)
        ensures
            final(self)@ == normalized(old(self)@).0,
            match normalized(old(self)@).1 {
                Some(f) => r matches Err(e) && e@ == f,
                None => r is Ok,
            },
    {
        let layer_ids = key_list(&self.layers);
        self.next_layer_id = match next_id_after("layer", &layer_ids) {
            Ok(n) => n,
            Err(e) => {
                return Err(e);
            },
        };
        let entity_ids = key_list(&self.entities);
        proof {
            lemma_entity_entries(self.entities@);
            assert(keys_of(self@.entities) =~= keys_of(self.entities@));
        }
        self.next_entity_id = match next_id_after("entity", &entity_ids) {
            Ok(n) => n,
            Err(e) => {
                return Err(e);
            },
        };
        let parameter_ids = key_list(&self.parameters);
        self.next_parameter_id = match next_id_after("parameter", &parameter_ids) {
            Ok(n) => n,
            Err(e) => {
                return Err(e);
            },
        };
        let constraint_ids = key_list(&self.constraints);
        self.next_constraint_id = match next_id_after("constraint", &constraint_ids) {
            Ok(n) => n,
            Err(e) => {
                return Err(e);
            },
        };
        Ok(())
    }
}

// ---------------------------------------------------------------------------
// Applying commands
// ---------------------------------------------------------------------------

/// `next` moved past `id`.
pub open spec fn past(next: u64, id: u64) -> u64 {
    if next < id + 1 {
        (id + 1) as u64
    } else {
        next
    }
}

/// The document after command `c`.
pub open spec fn command_effect(c: CadCommand, d: DocumentView) -> DocumentView {
    match c {
        CadCommand::CreateLayer { layer } => DocumentView {
            layers: d.layers.insert(layer.id, layer),
            next_layer_id: past(d.next_layer_id, layer.id),
            ..d
        },
        CadCommand::UpdateLayer { layer } => DocumentView {
            layers: d.layers.insert(layer.id, layer),
            next_layer_id: past(d.next_layer_id, layer.id),
            ..d
        },
        CadCommand::DeleteLayer { id } => DocumentView { layers: d.layers.remove(id), ..d },
        CadCommand::CreateEntity { entity } => DocumentView {
            entities: d.entities.insert(entity.id, entity@),
            next_entity_id: past(d.next_entity_id, entity.id),
            ..d
        },
        CadCommand::UpdateEntity { entity } => DocumentView {
            entities: d.entities.insert(entity.id, entity@),
            next_entity_id: past(d.next_entity_id, entity.id),
            ..d
        },
        CadCommand::DeleteEntity { id } => DocumentView { entities: d.entities.remove(id), ..d },
        CadCommand::SetParameter { parameter } => DocumentView {
            parameters: d.parameters.insert(parameter.id, parameter),
            next_parameter_id: past(d.next_parameter_id, parameter.id),
            ..d
        },
        CadCommand::DeleteParameter { id } => DocumentView { parameters: d.parameters.remove(id), ..d },
        CadCommand::CreateConstraint { constraint, dimension_fault } => DocumentView {
            constraints: d.constraints.insert(constraint.id, constraint),
            next_constraint_id: past(d.next_constraint_id, constraint.id),
            ..d
        },
        CadCommand::UpdateConstraint { constraint, dimension_fault } => DocumentView {
            constraints: d.constraints.insert(constraint.id, constraint),
            next_constraint_id: past(d.next_constraint_id, constraint.id),
            ..d
        },
        CadCommand::DeleteConstraint { id } => DocumentView {
            constraints: d.constraints.remove(id),
            ..d
        },
    }
}

/// The diff `x` with command `c`, applied to `d`, recorded.
pub open spec fn diff_step(x: DiffView, c: CadCommand, d: DocumentView) -> DiffView {
    match c {
        CadCommand::CreateLayer { layer } => DiffView {
            created_layers: x.created_layers.push(layer.id),
            ..x
        },
        CadCommand::UpdateLayer { layer } => DiffView {
            updated_layers: x.updated_layers.push(layer.id),
            ..x
        },
        CadCommand::DeleteLayer { id } => DiffView { deleted_layers: x.deleted_layers.push(id), ..x },
        CadCommand::CreateEntity { entity } => DiffView {
            created_entities: x.created_entities.push(entity.id),
            ..x
        },
        CadCommand::UpdateEntity { entity } => if d.entities.contains_key(entity.id) {
            DiffView { updated_entities: x.updated_entities.push(entity.id), ..x }
        } else {
            x
        },
        CadCommand::DeleteEntity { id } => DiffView {
            deleted_entities: x.deleted_entities.push(id),
            ..x
        },
        CadCommand::SetParameter { parameter } => DiffView {
            updated_parameters: x.updated_parameters.push(parameter.id),
            ..x
        },
        CadCommand::DeleteParameter { id } => DiffView {
            deleted_parameters: x.deleted_parameters.push(id),
            ..x
        },
        CadCommand::CreateConstraint { constraint, dimension_fault } => DiffView {
            created_constraints: x.created_constraints.push(constraint.id),
            ..x
        },
        CadCommand::UpdateConstraint { constraint, dimension_fault } => if d.constraints.contains_key(
            constraint.id,
        ) {
            DiffView { updated_constraints: x.updated_constraints.push(constraint.id), ..x }
        } else {
            x
        },
        CadCommand::DeleteConstraint { id } => DiffView {
            deleted_constraints: x.deleted_constraints.push(id),
            ..x
        },
    }
}

/// What a command's label reads.
pub open spec fn command_label(c: CadCommand) -> Seq<char> {
    match c {
        CadCommand::CreateLayer { layer } => "Create layer "@ + layer.name@,
        CadCommand::UpdateLayer { layer } => "Update layer "@ + layer.name@,
        CadCommand::DeleteLayer { id } => "Delete layer "@ + decimal(id as nat),
        CadCommand::CreateEntity { entity } => "Create "@ + entity.name@,
        CadCommand::UpdateEntity { entity } => "Update "@ + entity.name@,
        CadCommand::DeleteEntity { id } => "Delete entity "@ + decimal(id as nat),
        CadCommand::SetParameter { parameter } => "Set parameter "@ + parameter.name@,
        CadCommand::DeleteParameter { id } => "Delete parameter "@ + decimal(id as nat),
        CadCommand::CreateConstraint { constraint, dimension_fault } => "Create constraint "@
            + constraint.name@,
        CadCommand::UpdateConstraint { constraint, dimension_fault } => "Update constraint "@
            + constraint.name@,
        CadCommand::DeleteConstraint { id } => "Delete constraint "@ + decimal(id as nat),
    }
}

pub fn next_past(next: u64, id: u64) -> (n: u64)
    requires
        id < u64::MAX,
    ensures
        n == past(next, id),
{
    if next < id + 1 {
        id + 1
    } else {
        next
    }
}

impl CadCommand {
    /// Applies a validated command to `document`.
    pub(crate) fn apply(&self, document: &mut CadDocument)
        requires
            command_problem(*self, old(document)@) is None,
        ensures
            final(document)@ == command_effect(*self, old(document)@),
    {
        match self {
            CadCommand::CreateLayer { layer } | CadCommand::UpdateLayer { layer } => {
                document.next_layer_id = next_past(document.next_layer_id, layer.id);
                document.layers.insert(layer.id, layer.copy());
            },
            CadCommand::DeleteLayer { id } => {
                document.layers.remove(id);
            },
            CadCommand::CreateEntity { entity } | CadCommand::UpdateEntity { entity } => {
                document.next_entity_id = next_past(document.next_entity_id, entity.id);
                document.entities.insert(entity.id, entity.copy());
                proof {
                    assert(entity_views(document.entities@) =~= entity_views(
                        old(document).entities@,
                    ).insert(entity.id, entity@));
                }
            },
            CadCommand::DeleteEntity { id } => {
                document.entities.remove(id);
                proof {
                    assert(entity_views(document.entities@) =~= entity_views(
                        old(document).entities@,
                    ).remove(*id));
                }
            },
            CadCommand::SetParameter { parameter } => {
                document.next_parameter_id = next_past(document.next_parameter_id, parameter.id);
                document.parameters.insert(parameter.id, parameter.copy());
            },
            CadCommand::DeleteParameter { id } => {
                document.parameters.remove(id);
            },
            CadCommand::CreateConstraint { constraint, dimension_fault }
            | CadCommand::UpdateConstraint { constraint, dimension_fault } => {
                document.next_constraint_id = next_past(document.next_constraint_id, constraint.id);
                document.constraints.insert(constraint.id, constraint.copy());
            },
            CadCommand::DeleteConstraint { id } => {
                document.constraints.remove(id);
            },
        }
        proof {
            assert(document@.layers =~= command_effect(*self, old(document)@).layers);
            assert(document@.entities =~= command_effect(*self, old(document)@).entities);
            assert(document@.parameters =~= command_effect(*self, old(document)@).parameters);
            assert(document@.constraints =~= command_effect(*self, old(document)@).constraints);
        }
    }

    /// A one-line description of the command.
    pub fn label(&self) -> (s: String)
        ensures
            s@ == command_label(*self),
    {
        let mut s = String::new();
        match self {
            CadCommand::CreateLayer { layer } => {
                push_str(&mut s, "Create layer ");
                push_str(&mut s, layer.name.as_str());
            },
            CadCommand::UpdateLayer { layer } => {
                push_str(&mut s, "Update layer ");
                push_str(&mut s, layer.name.as_str());
            },
            CadCommand::DeleteLayer { id } => {
                push_str(&mut s, "Delete layer ");
                push_decimal(&mut s, *id);
            },
            CadCommand::CreateEntity { entity } => {
                push_str(&mut s, "Create ");
                push_str(&mut s, entity.name.as_str());
            },
            CadCommand::UpdateEntity { entity } => {
                push_str(&mut s, "Update ");
                push_str(&mut s, entity.name.as_str());
            },
            CadCommand::DeleteEntity { id } => {
                push_str(&mut s, "Delete entity ");
                push_decimal(&mut s, *id);
            },
            CadCommand::SetParameter { parameter } => {
                push_str(&mut s, "Set parameter ");
                push_str(&mut s, parameter.name.as_str());
            },
            CadCommand::DeleteParameter { id } => {
                push_str(&mut s, "Delete parameter ");
                push_decimal(&mut s, *id);
            },
            CadCommand::CreateConstraint { constraint, dimension_fault } => {
                push_str(&mut s, "Create constraint ");
                push_str(&mut s, constraint.name.as_str());
            },
            CadCommand::UpdateConstraint { constraint, dimension_fault } => {
                push_str(&mut s, "Update constraint ");
                push_str(&mut s, constraint.name.as_str());
            },
            CadCommand::DeleteConstraint { id } => {
                push_str(&mut s, "Delete constraint ");
                push_decimal(&mut s, *id);
            },
        }
        proof {
            assert(s@ =~= command_label(*self));
        }
        s
    }
}

/// Records command `command`, about to be applied to `document`, in `diff`.
pub fn collect_diff(diff: &mut DocumentDiff, command: &CadCommand, document: &CadDocument)
    ensures
        final(diff)@ == diff_step(old(diff)@, *command, document@),
{
    match command {
        CadCommand::CreateLayer { layer } => diff.created_layers.push(layer.id),
        CadCommand::UpdateLayer { layer } => diff.updated_layers.push(layer.id),
        CadCommand::DeleteLayer { id } => diff.deleted_layers.push(*id),
        CadCommand::CreateEntity { entity } => diff.created_entities.push(entity.id),
        CadCommand::UpdateEntity { entity } => {
            if document.entities.contains_key(&entity.id) {
                diff.updated_entities.push(entity.id);
            }
        },
        CadCommand::DeleteEntity { id } => diff.deleted_entities.push(*id),
        CadCommand::SetParameter { parameter } => diff.updated_parameters.push(parameter.id),
        CadCommand::DeleteParameter { id } => diff.deleted_parameters.push(*id),
        CadCommand::CreateConstraint { constraint, dimension_fault } => diff.created_constraints.push(
            constraint.id,
        ),
        CadCommand::UpdateConstraint { constraint, dimension_fault } => {
            if document.constraints.contains_key(&constraint.id) {
                diff.updated_constraints.push(constraint.id);
            }
        },
        CadCommand::DeleteConstraint { id } => diff.deleted_constraints.push(*id),
    }
}

impl CadDocument {
    /// A copy of the document.
    pub fn copy(&self) -> (c: Self)
        ensures
            c@ == self@,
    {
        let layer_list = entry_refs(&self.layers);
        let mut layers: BTreeMap<LayerId, Layer> = BTreeMap::new();
        let mut i: usize = 0;
        while i < layer_list.len()
            invariant
                i <= layer_list@.len(),
                layer_list@.len() == entries(self.layers@).len(),
                forall|j: int| 0 <= j < layer_list@.len() ==> (#[trigger] layer_list@[j]).0 == entries(
                    self.layers@,
                )[j].0 && *layer_list@[j].1 == entries(self.layers@)[j].1,
                lists_in_order(entries(self.layers@), self.layers@),
                forall|k: LayerId| #[trigger] layers@.contains_key(k) ==> self.layers@.contains_key(k)
                    && layers@[k] == self.layers@[k],
                forall|j: int| 0 <= j < i ==> layers@.contains_key(#[trigger] entries(self.layers@)[j].0),
            decreases layer_list@.len() - i,
        {
            layers.insert(layer_list[i].0, layer_list[i].1.copy());
            proof {
                assert(self.layers@.contains_key(entries(self.layers@)[i as int].0));
            }
            i += 1;
        }
        let entity_list = entry_refs(&self.entities);
        let mut entities: BTreeMap<EntityId, EntityRecord> = BTreeMap::new();
        let mut i: usize = 0;
        while i < entity_list.len()
            invariant
                i <= entity_list@.len(),
                entity_list@.len() == entries(self.entities@).len(),
                forall|j: int| 0 <= j < entity_list@.len() ==> (#[trigger] entity_list@[j]).0
                    == entries(self.entities@)[j].0 && *entity_list@[j].1 == entries(
                    self.entities@,
                )[j].1,
                lists_in_order(entries(self.entities@), self.entities@),
                forall|k: EntityId| #[trigger] entities@.contains_key(k) ==> self.entities@.contains_key(k)
                    && entities@[k]@ == self.entities@[k]@,
                forall|j: int| 0 <= j < i ==> entities@.contains_key(#[trigger] entries(self.entities@)[j].0),
            decreases entity_list@.len() - i,
        {
            entities.insert(entity_list[i].0, entity_list[i].1.copy());
            proof {
                assert(self.entities@.contains_key(entries(self.entities@)[i as int].0));
            }
            i += 1;
        }
        let parameter_list = entry_refs(&self.parameters);
        let mut parameters: BTreeMap<ParameterId, ParameterRecord> = BTreeMap::new();
        let mut i: usize = 0;
        while i < parameter_list.len()
            invariant
                i <= parameter_list@.len(),
                parameter_list@.len() == entries(self.parameters@).len(),
                forall|j: int| 0 <= j < parameter_list@.len() ==> (#[trigger] parameter_list@[j]).0
                    == entries(self.parameters@)[j].0 && *parameter_list@[j].1 == entries(
                    self.parameters@,
                )[j].1,
                lists_in_order(entries(self.parameters@), self.parameters@),
                forall|k: ParameterId| #[trigger] parameters@.contains_key(k) ==> self.parameters@.contains_key(k)
                    && parameters@[k] == self.parameters@[k],
                forall|j: int| 0 <= j < i ==> parameters@.contains_key(#[trigger] entries(self.parameters@)[j].0),
            decreases parameter_list@.len() - i,
        {
            parameters.insert(parameter_list[i].0, parameter_list[i].1.copy());
            proof {
                assert(self.parameters@.contains_key(entries(self.parameters@)[i as int].0));
            }
            i += 1;
        }
        let constraint_list = entry_refs(&self.constraints);
        let mut constraints: BTreeMap<ConstraintId, SketchConstraint> = BTreeMap::new();
        let mut i: usize = 0;
        while i < constraint_list.len()
            invariant
                i <= constraint_list@.len(),
                constraint_list@.len() == entries(self.constraints@).len(),
                forall|j: int| 0 <= j < constraint_list@.len() ==> (#[trigger] constraint_list@[j]).0
                    == entries(self.constraints@)[j].0 && *constraint_list@[j].1 == entries(
                    self.constraints@,
                )[j].1,
                lists_in_order(entries(self.constraints@), self.constraints@),
                forall|k: ConstraintId| #[trigger] constraints@.contains_key(k) ==> self.constraints@.contains_key(k)
                    && constraints@[k] == self.constraints@[k],
                forall|j: int| 0 <= j < i ==> constraints@.contains_key(#[trigger] entries(self.constraints@)[j].0),
            decreases constraint_list@.len() - i,
        {
            constraints.insert(constraint_list[i].0, constraint_list[i].1.copy());
            proof {
                assert(self.constraints@.contains_key(entries(self.constraints@)[i as int].0));
            }
            i += 1;
        }
        proof {
            assert forall|k: LayerId| #[trigger] self.layers@.contains_key(k) implies layers@.contains_key(k) by {
                let j = choose|j: int| 0 <= j < entries(self.layers@).len() && entries(self.layers@)[j].0 == k;
            }
            assert(layers@ =~= self.layers@);
            assert forall|k: EntityId| #[trigger] self.entities@.contains_key(k) implies entities@.contains_key(k) by {
                let j = choose|j: int| 0 <= j < entries(self.entities@).len() && entries(self.entities@)[j].0 == k;
            }
            assert(entity_views(entities@) =~= entity_views(self.entities@));
            assert forall|k: ParameterId| #[trigger] self.parameters@.contains_key(k) implies parameters@.contains_key(k) by {
                let j = choose|j: int| 0 <= j < entries(self.parameters@).len() && entries(self.parameters@)[j].0 == k;
            }
            assert(parameters@ =~= self.parameters@);
            assert forall|k: ConstraintId| #[trigger] self.constraints@.contains_key(k) implies constraints@.contains_key(k) by {
                let j = choose|j: int| 0 <= j < entries(self.constraints@).len() && entries(self.constraints@)[j].0 == k;
            }
            assert(constraints@ =~= self.constraints@);
        }
        CadDocument {
            schema_version: self.schema_version,
            metadata: self.metadata.copy(),
            units: self.units,
            layers,
            entities,
            parameters,
            constraints,
            next_layer_id: self.next_layer_id,
            next_entity_id: self.next_entity_id,
            next_parameter_id: self.next_parameter_id,
            next_constraint_id: self.next_constraint_id,
        }
    }
}


// ---------------------------------------------------------------------------
// Transactions
// ---------------------------------------------------------------------------

/// Commands `cs` checked and applied one after another to `d`, with the diff
/// they record; the first command refused stops them.
pub open spec fn staged(cs: Seq<CadCommand>, d: DocumentView) -> Result<(DocumentView, DiffView), CommandFault>
    decreases cs.len(),
{
    if cs.len() == 0 {
        Ok((d, DiffView::empty()))
    } else {
        match staged(cs.drop_last(), d) {
            Err(f) => Err(f),
            Ok((d1, x1)) => match command_problem(cs.last(), d1) {
                Some(f) => Err(f),
                None => Ok((command_effect(cs.last(), d1), diff_step(x1, cs.last(), d1))),
            },
        }
    }
}

/// What a transaction of `cs` on `d` comes to: the document it leaves and
/// the diff it reports, or why it is refused (a command refused on the way,
/// or the document it would leave not valid).
pub open spec fn transaction_outcome(cs: Seq<CadCommand>, d: DocumentView, facts: DocumentFacts) -> Result<
    (DocumentView, DiffView),
    CommandFault,
> {
    match staged(cs, d) {
        Err(f) => Err(f),
        Ok((fin, x)) => match document_problem(fin, facts) {
            Some(f) => Err(f),
            None => Ok((fin, x)),
        },
    }
}

/// A prefix of commands that stage stages too.
pub proof fn lemma_staged_prefix(cs: Seq<CadCommand>, n: int, d: DocumentView)
    requires
        0 <= n <= cs.len(),
        staged(cs, d) is Ok,
    ensures
        staged(cs.take(n), d) is Ok,
    decreases cs.len() - n,
{
    if n < cs.len() {
        assert(cs.take(n + 1).drop_last() =~= cs.take(n));
        lemma_staged_prefix(cs, n + 1, d);
    } else {
        assert(cs.take(n) =~= cs);
    }
}

/// A refused prefix refuses the whole, with the same fault.
pub proof fn lemma_staged_refused(cs: Seq<CadCommand>, n: int, d: DocumentView)
    requires
        0 <= n <= cs.len(),
        staged(cs.take(n), d) is Err,
    ensures
        staged(cs, d) == staged(cs.take(n), d),
    decreases cs.len() - n,
{
    if n < cs.len() {
        assert(cs.take(n + 1).drop_last() =~= cs.take(n));
        lemma_staged_refused(cs, n + 1, d);
    } else {
        assert(cs.take(n) =~= cs);
    }
}

/// A batch of commands applied all together or not at all.
pub struct CommandTransaction {
    pub commands: Vec<CadCommand>,
}

pub open spec fn transaction_label(cs: Seq<CadCommand>) -> Seq<char> {
    if cs.len() == 0 {
        "No changes"@
    } else if cs.len() == 1 {
        command_label(cs[0])
    } else {
        decimal(cs.len()) + " actions"@
    }
}

impl CommandTransaction {
    pub fn new(commands: Vec<CadCommand>) -> (t: Self)
        ensures
            t.commands@ == commands@,
    {
        CommandTransaction { commands }
    }

    /// Checks and applies every command to a copy of `document`, then
    /// validates the copy; returns the diff, leaving `document` as it is.
    /// `facts` are the host's facts about the document the commands leave.
    pub fn preview(&self, document: &CadDocument, facts: &DocumentFacts) -> (r: Result<
        DocumentDiff,
        CommandError,
    >)
        ensures
            match transaction_outcome(self.commands@, document@, *facts) {
                Err(f) => r matches Err(e) && e@ == f,
                Ok((_, x)) => r matches Ok(diff) && diff@ == x,
            },
    {
        let mut temporary = document.copy();
        let mut diff = DocumentDiff::empty();
        let ghost cs = self.commands@;
        let mut i: usize = 0;
        proof {
            assert(cs.take(0) =~= Seq::<CadCommand>::empty());
        }
        while i < self.commands.len()
            invariant
                i <= cs.len(),
                cs == self.commands@,
                staged(cs.take(i as int), document@) == Ok::<(DocumentView, DiffView), CommandFault>(
                    (temporary@, diff@),
                ),
            decreases cs.len() - i,
        {
            let command = &self.commands[i];
            proof {
                assert(cs.take(i + 1).drop_last() =~= cs.take(i as int));
                assert(cs.take(i + 1).last() == cs[i as int]);
            }
            if let Err(e) = command.validate(&temporary) {
                proof {
                    lemma_staged_refused(cs, i + 1, document@);
                }
                return Err(e);
            }
            collect_diff(&mut diff, command, &temporary);
            command.apply(&mut temporary);
            i += 1;
        }
        proof {
            assert(cs.take(cs.len() as int) =~= cs);
        }
        if let Err(e) = temporary.validate(facts) {
            return Err(e);
        }
        Ok(diff)
    }

    /// Applies the transaction to `document` when it previews cleanly, and
    /// leaves `document` untouched when it does not.
    pub fn apply(&self, document: &mut CadDocument, facts: &DocumentFacts) -> (r: Result<
        DocumentDiff,
        CommandError,
    >)
        ensures
            match transaction_outcome(self.commands@, old(document)@, *facts) {
                Err(f) => r matches Err(e) && e@ == f && final(document)@ == old(document)@,
                Ok((fin, x)) => r matches Ok(diff) && diff@ == x && final(document)@ == fin,
            },
    {
        let mut temporary = document.copy();
        let diff = match self.preview(&temporary, facts) {
            Ok(d) => d,
            Err(e) => {
                return Err(e);
            },
        };
        let ghost cs = self.commands@;
        let ghost d0 = temporary@;
        proof {
            assert(cs.take(0) =~= Seq::<CadCommand>::empty());
        }
        let mut i: usize = 0;
        while i < self.commands.len()
            invariant
                i <= cs.len(),
                cs == self.commands@,
                staged(cs, d0) is Ok,
                staged(cs.take(i as int), d0) matches Ok((d1, _)) && d1 == temporary@,
            decreases cs.len() - i,
        {
            proof {
                lemma_staged_prefix(cs, i + 1, d0);
                assert(cs.take(i + 1).drop_last() =~= cs.take(i as int));
                assert(cs.take(i + 1).last() == cs[i as int]);
            }
            self.commands[i].apply(&mut temporary);
            i += 1;
        }
        proof {
            assert(cs.take(cs.len() as int) =~= cs);
        }
        *document = temporary;
        Ok(diff)
    }

    /// `"No changes"`, the single command's label, or `"{n} actions"`.
    pub fn label(&self) -> (s: String)
        ensures
            s@ == transaction_label(self.commands@),
    {
        let n = self.commands.len();
        if n == 0 {
            "No changes".to_owned()
        } else if n == 1 {
            self.commands[0].label()
        } else {
            let mut s = String::new();
            push_decimal(&mut s, n as u64);
            push_str(&mut s, " actions");
            s
        }
    }
}


// ---------------------------------------------------------------------------
// Laws
// ---------------------------------------------------------------------------

/// Every entity sits on a layer of the document.
pub open spec fn entities_on_layers(d: DocumentView) -> bool {
    forall|k: EntityId| #[trigger] d.entities.contains_key(k) ==> d.layers.contains_key(
        d.entities[k].layer,
    )
}

/// Every id in use is below the next id of its kind.
pub open spec fn ids_below_next(d: DocumentView) -> bool {
    &&& forall|k: LayerId| #[trigger] d.layers.contains_key(k) ==> k < d.next_layer_id
    &&& forall|k: EntityId| #[trigger] d.entities.contains_key(k) ==> k < d.next_entity_id
    &&& forall|k: ParameterId| #[trigger] d.parameters.contains_key(k) ==> k < d.next_parameter_id
    &&& forall|k: ConstraintId| #[trigger] d.constraints.contains_key(k) ==> k
        < d.next_constraint_id
}

/// An accepted command keeps every entity on a layer of the document: a
/// layer is deleted only when empty, and an entity is placed only on a
/// layer that exists.
pub proof fn law_command_keeps_entities_on_layers(c: CadCommand, d: DocumentView)
    requires
        entities_on_layers(d),
        command_problem(c, d) is None,
    ensures
        entities_on_layers(command_effect(c, d)),
{
    let e = command_effect(c, d);
    match c {
        CadCommand::DeleteLayer { id } => {
            assert forall|k: EntityId| #[trigger] e.entities.contains_key(k) implies e.layers.contains_key(
                e.entities[k].layer,
            ) by {
                if d.entities[k].layer == id {
                    assert(some_entity_on(d, id));
                }
            }
        },
        CadCommand::CreateEntity { entity } => {
            assert forall|k: EntityId| #[trigger] e.entities.contains_key(k) implies e.layers.contains_key(
                e.entities[k].layer,
            ) by {
                if k != entity.id {
                    assert(d.entities.contains_key(k));
                }
            }
        },
        CadCommand::UpdateEntity { entity } => {
            assert forall|k: EntityId| #[trigger] e.entities.contains_key(k) implies e.layers.contains_key(
                e.entities[k].layer,
            ) by {
                if k != entity.id {
                    assert(d.entities.contains_key(k));
                }
            }
        },
        CadCommand::DeleteEntity { id } => {
            assert forall|k: EntityId| #[trigger] e.entities.contains_key(k) implies e.layers.contains_key(
                e.entities[k].layer,
            ) by {
                assert(d.entities.contains_key(k));
            }
        },
        CadCommand::CreateLayer { layer } => {
            assert forall|k: EntityId| #[trigger] e.entities.contains_key(k) implies e.layers.contains_key(
                e.entities[k].layer,
            ) by {
                assert(d.entities.contains_key(k));
            }
        },
        CadCommand::UpdateLayer { layer } => {
            assert forall|k: EntityId| #[trigger] e.entities.contains_key(k) implies e.layers.contains_key(
                e.entities[k].layer,
            ) by {
                assert(d.entities.contains_key(k));
            }
        },
        _ => {},
    }
}

/// An accepted command keeps every id below the next id of its kind: each
/// stored id moves the next id past it.
pub proof fn law_command_keeps_ids_below_next(c: CadCommand, d: DocumentView)
    requires
        ids_below_next(d),
        command_problem(c, d) is None,
    ensures
        ids_below_next(command_effect(c, d)),
{
    let e = command_effect(c, d);
    assert forall|k: LayerId| #[trigger] e.layers.contains_key(k) implies k < e.next_layer_id by {
        if d.layers.contains_key(k) {
        }
    }
    assert forall|k: EntityId| #[trigger] e.entities.contains_key(k) implies k < e.next_entity_id by {
        if d.entities.contains_key(k) {
        }
    }
    assert forall|k: ParameterId| #[trigger] e.parameters.contains_key(k) implies k
        < e.next_parameter_id by {
        if d.parameters.contains_key(k) {
        }
    }
    assert forall|k: ConstraintId| #[trigger] e.constraints.contains_key(k) implies k
        < e.next_constraint_id by {
        if d.constraints.contains_key(k) {
        }
    }
}

/// Commands that stage keep both: every entity on a layer, and every id
/// below the next id of its kind.
pub proof fn law_staged_commands_keep_invariants(cs: Seq<CadCommand>, d: DocumentView)
    requires
        entities_on_layers(d),
        ids_below_next(d),
        staged(cs, d) is Ok,
    ensures
        staged(cs, d) matches Ok((fin, _)) && entities_on_layers(fin) && ids_below_next(fin),
    decreases cs.len(),
{
    if cs.len() > 0 {
        law_staged_commands_keep_invariants(cs.drop_last(), d);
        let (d1, x1) = staged(cs.drop_last(), d)->Ok_0;
        law_command_keeps_entities_on_layers(cs.last(), d1);
        law_command_keeps_ids_below_next(cs.last(), d1);
    }
}

pub proof fn lemma_first_fault_none(n: int, f: spec_fn(int) -> Option<CommandFault>, i: int)
    requires
        0 <= i,
        first_fault(n, f, i) is None,
    ensures
        forall|j: int| i <= j < n ==> (#[trigger] f(j)) is None,
    decreases n - i,
{
    if i < n {
        lemma_first_fault_none(n, f, i + 1);
    }
}

pub proof fn lemma_first_missing_none(refs: Seq<ParameterId>, ps: Map<ParameterId, ParameterRecord>, j: int)
    requires
        0 <= j,
        first_missing(refs, ps, j) is None,
    ensures
        forall|q: int| j <= q < refs.len() ==> ps.contains_key(#[trigger] refs[q]),
    decreases refs.len() - j,
{
    if j < refs.len() {
        lemma_first_missing_none(refs, ps, j + 1);
    }
}

/// Ids `ids` all lie below `next` when `next` is not behind them.
pub proof fn lemma_next_not_behind(kind: Seq<char>, next: u64, ids: Seq<u64>)
    requires
        next_id_problem(kind, next, ids) is None,
    ensures
        forall|q: int| 0 <= q < ids.len() ==> #[trigger] ids[q] < next,
{
    lemma_max_id(ids);
}

pub proof fn lemma_keys_below<V>(m: Map<u64, V>, kind: Seq<char>, next: u64)
    requires
        lists_in_order(entries(m), m),
        next_id_problem(kind, next, keys_of(m)) is None,
    ensures
        forall|k: u64| #[trigger] m.contains_key(k) ==> k < next,
{
    lemma_next_not_behind(kind, next, keys_of(m));
    assert forall|k: u64| #[trigger] m.contains_key(k) implies k < next by {
        let i = choose|i: int| 0 <= i < entries(m).len() && entries(m)[i].0 == k;
        assert(keys_of(m)[i] == k);
    }
}

/// What a valid document guarantees: every entity on a layer of the
/// document, every extrusion on an existing closed sketch profile, every
/// referenced parameter present, and every id below the next id of its
/// kind.
pub proof fn law_valid_document_is_consistent(d: DocumentView, facts: DocumentFacts)
    requires
        d.layers.dom().finite(),
        d.entities.dom().finite(),
        d.parameters.dom().finite(),
        d.constraints.dom().finite(),
        document_problem(d, facts) is None,
    ensures
        entities_on_layers(d),
        ids_below_next(d),
        forall|k: EntityId|
            #![trigger d.entities[k]]
            d.entities.contains_key(k) ==> match d.entities[k].kind {
                EntityShape::Extrude { profile } => d.entities.contains_key(profile)
                    && is_closed_profile(d.entities[profile].kind),
                _ => true,
            },
        forall|k: EntityId, q: int|
            #![trigger d.entities[k].parameter_refs[q]]
            d.entities.contains_key(k) && 0 <= q < d.entities[k].parameter_refs.len()
                ==> d.parameters.contains_key(d.entities[k].parameter_refs[q]),
{
    lemma_entries_exist(d.layers);
    lemma_entries_exist(d.entities);
    lemma_entries_exist(d.parameters);
    lemma_entries_exist(d.constraints);
    let es = entries(d.entities);
    let f = |i: int| entity_entry_problem(es, i, d);
    lemma_first_fault_none(es.len() as int, f, 0);
    assert forall|k: EntityId| #[trigger] d.entities.contains_key(k) implies {
        &&& d.layers.contains_key(d.entities[k].layer)
        &&& match d.entities[k].kind {
            EntityShape::Extrude { profile } => d.entities.contains_key(profile)
                && is_closed_profile(d.entities[profile].kind),
            _ => true,
        }
        &&& forall|q: int|
            0 <= q < d.entities[k].parameter_refs.len() ==> d.parameters.contains_key(
                #[trigger] d.entities[k].parameter_refs[q],
            )
    } by {
        let i = choose|i: int| 0 <= i < es.len() && es[i].0 == k;
        assert(f(i) is None);
        assert(es[i].1 == d.entities[k]);
        lemma_first_missing_none(d.entities[k].parameter_refs, d.parameters, 0);
    }
    lemma_keys_below(d.layers, "layer"@, d.next_layer_id);
    lemma_keys_below(d.entities, "entity"@, d.next_entity_id);
    lemma_keys_below(d.parameters, "parameter"@, d.next_parameter_id);
    lemma_keys_below(d.constraints, "constraint"@, d.next_constraint_id);
}

/// A transaction that goes through leaves a valid document, and every
/// staged command was accepted in turn.
pub proof fn law_accepted_transaction_leaves_valid_document(
    cs: Seq<CadCommand>,
    d: DocumentView,
    facts: DocumentFacts,
)
    requires
        transaction_outcome(cs, d, facts) is Ok,
    ensures
        transaction_outcome(cs, d, facts) matches Ok((fin, _)) && document_problem(fin, facts) is None,
        forall|n: int| 0 <= n <= cs.len() ==> (#[trigger] staged(cs.take(n), d)) is Ok,
{
    assert forall|n: int| 0 <= n <= cs.len() implies (#[trigger] staged(cs.take(n), d)) is Ok by {
        lemma_staged_prefix(cs, n, d);
    }
}

/// Deleting an entity just created is accepted and gives back the entity
/// table the document had.
pub proof fn law_delete_undoes_create_entity(entity: EntityRecord, d: DocumentView)
    requires
        command_problem(CadCommand::CreateEntity { entity }, d) is None,
    ensures
        command_problem(
            CadCommand::DeleteEntity { id: entity.id },
            command_effect(CadCommand::CreateEntity { entity }, d),
        ) is None,
        command_effect(
            CadCommand::DeleteEntity { id: entity.id },
            command_effect(CadCommand::CreateEntity { entity }, d),
        ).entities == d.entities,
{
    let d1 = command_effect(CadCommand::CreateEntity { entity }, d);
    assert(d1.entities[entity.id] == entity@);
    assert(d1.entities.remove(entity.id) =~= d.entities);
}

/// Deleting a layer just created, in a document whose entities all sit on
/// its layers, is accepted and gives back the layer table the document had.
pub proof fn law_delete_undoes_create_layer(layer: Layer, d: DocumentView)
    requires
        d.layers.dom().finite(),
        d.layers.len() > 0,
        entities_on_layers(d),
        command_problem(CadCommand::CreateLayer { layer }, d) is None,
    ensures
        command_problem(
            CadCommand::DeleteLayer { id: layer.id },
            command_effect(CadCommand::CreateLayer { layer }, d),
        ) is None,
        command_effect(
            CadCommand::DeleteLayer { id: layer.id },
            command_effect(CadCommand::CreateLayer { layer }, d),
        ).layers == d.layers,
{
    let d1 = command_effect(CadCommand::CreateLayer { layer }, d);
    assert(d1.layers.len() == d.layers.len() + 1);
    if some_entity_on(d1, layer.id) {
        let k = choose|k: EntityId| #[trigger] d1.entities.contains_key(k) && d1.entities[k].layer
            == layer.id;
        assert(d.entities.contains_key(k));
    }
    assert(d1.layers.remove(layer.id) =~= d.layers);
}

} // verus!
