//! Parametric features as the dependency graph sees them: what each feature
//! consumes, sketch attachments, boolean labels, and STEP shell boundaries.

use vstd::prelude::*;

use crate::assembly::{AssemblyError, AssemblyId};
use crate::text::{string_push, trim_range, trimmed};

verus! {

pub type FeatureId = u64;

pub const MAX_LOFT_SECTIONS: usize = 32;

pub const MAX_STEP_UNIT_NAME_LENGTH: usize = 80;

pub const MAX_STEP_VOID_SHELLS: usize = 4096;

/// Characters a feature name keeps.
pub const MAX_FEATURE_NAME_CHARS: usize = 80;

/// A failure of a parametric model's checks.
pub enum DocumentError {
    InvalidParameter(String),
    /// A sketch's constraint diagnostic, as its text.
    SketchConstraint(String),
    InvalidFeatureId(FeatureId),
    InvalidDependency { feature: FeatureId, dependency: FeatureId, expected: &'static str },
    DependencyCycle { cycle: Vec<FeatureId> },
    Assembly(AssemblyError),
    FeatureNotFound(FeatureId),
    PrimitiveMismatch { id: FeatureId, expected: &'static str },
    FeatureInUse { id: FeatureId, dependent: FeatureId },
    FeatureInAssembly { id: FeatureId, assembly: AssemblyId, occurrence: u64 },
    AssemblyNotFound(AssemblyId),
    OccurrenceNotFound { assembly: AssemblyId, occurrence: u64 },
    IdOverflow,
    SuppressedFeatureDependency { feature: FeatureId, dependency: FeatureId },
    FeatureInMultipleAssemblies {
        id: FeatureId,
        first_assembly: AssemblyId,
        first_occurrence: u64,
        second_assembly: AssemblyId,
        second_occurrence: u64,
    },
}

/// What a document error reports, as plain values.
pub enum DocumentFault {
    InvalidParameter(Seq<char>),
    SketchConstraint(Seq<char>),
    InvalidFeatureId(FeatureId),
    InvalidDependency { feature: FeatureId, dependency: FeatureId, expected: Seq<char> },
    DependencyCycle { cycle: Seq<FeatureId> },
    Assembly(AssemblyError),
    FeatureNotFound(FeatureId),
    PrimitiveMismatch { id: FeatureId, expected: Seq<char> },
    FeatureInUse { id: FeatureId, dependent: FeatureId },
    FeatureInAssembly { id: FeatureId, assembly: AssemblyId, occurrence: u64 },
    AssemblyNotFound(AssemblyId),
    OccurrenceNotFound { assembly: AssemblyId, occurrence: u64 },
    IdOverflow,
    SuppressedFeatureDependency { feature: FeatureId, dependency: FeatureId },
    FeatureInMultipleAssemblies {
        id: FeatureId,
        first_assembly: AssemblyId,
        first_occurrence: u64,
        second_assembly: AssemblyId,
        second_occurrence: u64,
    },
}

impl View for DocumentError {
    type V = DocumentFault;

    open spec fn view(&self) -> DocumentFault {
        match self {
            DocumentError::InvalidParameter(m) => DocumentFault::InvalidParameter(m@),
            DocumentError::InvalidFeatureId(id) => DocumentFault::InvalidFeatureId(*id),
            DocumentError::InvalidDependency { feature, dependency, expected } =>
                DocumentFault::InvalidDependency {
                feature: *feature,
                dependency: *dependency,
                expected: expected@,
            },
            DocumentError::DependencyCycle { cycle } => DocumentFault::DependencyCycle {
                cycle: cycle@,
            },
            DocumentError::SketchConstraint(m) => DocumentFault::SketchConstraint(m@),
            DocumentError::Assembly(e) => DocumentFault::Assembly(*e),
            DocumentError::FeatureNotFound(id) => DocumentFault::FeatureNotFound(*id),
            DocumentError::PrimitiveMismatch { id, expected } => DocumentFault::PrimitiveMismatch {
                id: *id,
                expected: expected@,
            },
            DocumentError::FeatureInUse { id, dependent } => DocumentFault::FeatureInUse {
                id: *id,
                dependent: *dependent,
            },
            DocumentError::FeatureInAssembly { id, assembly, occurrence } =>
                DocumentFault::FeatureInAssembly { id: *id, assembly: *assembly, occurrence: *occurrence },
            DocumentError::AssemblyNotFound(id) => DocumentFault::AssemblyNotFound(*id),
            DocumentError::OccurrenceNotFound { assembly, occurrence } =>
                DocumentFault::OccurrenceNotFound { assembly: *assembly, occurrence: *occurrence },
            DocumentError::IdOverflow => DocumentFault::IdOverflow,
            DocumentError::SuppressedFeatureDependency { feature, dependency } =>
                DocumentFault::SuppressedFeatureDependency {
                feature: *feature,
                dependency: *dependency,
            },
            DocumentError::FeatureInMultipleAssemblies {
                id,
                first_assembly,
                first_occurrence,
                second_assembly,
                second_occurrence,
            } => DocumentFault::FeatureInMultipleAssemblies {
                id: *id,
                first_assembly: *first_assembly,
                first_occurrence: *first_occurrence,
                second_assembly: *second_assembly,
                second_occurrence: *second_occurrence,
            },
        }
    }
}

impl DocumentError {
    /// A copy that reports the same.
    pub fn copy(&self) -> (c: Self)
        ensures
            c@ == self@,
    {
        match self {
            DocumentError::InvalidParameter(m) => DocumentError::InvalidParameter(m.clone()),
            DocumentError::SketchConstraint(m) => DocumentError::SketchConstraint(m.clone()),
            DocumentError::InvalidFeatureId(id) => DocumentError::InvalidFeatureId(*id),
            DocumentError::InvalidDependency { feature, dependency, expected } =>
                DocumentError::InvalidDependency {
                feature: *feature,
                dependency: *dependency,
                expected: *expected,
            },
            DocumentError::DependencyCycle { cycle } => {
                let c = cycle.clone();
                proof {
                    assert(c@ =~= cycle@);
                }
                DocumentError::DependencyCycle { cycle: c }
            },
            DocumentError::Assembly(e) => DocumentError::Assembly(*e),
            DocumentError::FeatureNotFound(id) => DocumentError::FeatureNotFound(*id),
            DocumentError::PrimitiveMismatch { id, expected } => DocumentError::PrimitiveMismatch {
                id: *id,
                expected: *expected,
            },
            DocumentError::FeatureInUse { id, dependent } => DocumentError::FeatureInUse {
                id: *id,
                dependent: *dependent,
            },
            DocumentError::FeatureInAssembly { id, assembly, occurrence } =>
                DocumentError::FeatureInAssembly { id: *id, assembly: *assembly, occurrence: *occurrence },
            DocumentError::AssemblyNotFound(id) => DocumentError::AssemblyNotFound(*id),
            DocumentError::OccurrenceNotFound { assembly, occurrence } =>
                DocumentError::OccurrenceNotFound { assembly: *assembly, occurrence: *occurrence },
            DocumentError::IdOverflow => DocumentError::IdOverflow,
            DocumentError::SuppressedFeatureDependency { feature, dependency } =>
                DocumentError::SuppressedFeatureDependency {
                feature: *feature,
                dependency: *dependency,
            },
            DocumentError::FeatureInMultipleAssemblies {
                id,
                first_assembly,
                first_occurrence,
                second_assembly,
                second_occurrence,
            } => DocumentError::FeatureInMultipleAssemblies {
                id: *id,
                first_assembly: *first_assembly,
                first_occurrence: *first_occurrence,
                second_assembly: *second_assembly,
                second_occurrence: *second_occurrence,
            },
        }
    }
}

/// A parametric solid operation that consumes two upstream features.
#[derive(Clone, Copy, Debug, PartialEq, Eq, Structural)]
pub enum BooleanOperation {
    Union,
    Subtract,
    Intersect,
}

impl BooleanOperation {
    pub open spec fn label_text(self) -> Seq<char> {
        match self {
            BooleanOperation::Union => "Union"@,
            BooleanOperation::Subtract => "Subtract"@,
            BooleanOperation::Intersect => "Intersect"@,
        }
    }

    /// The operation's display name.
    pub fn label(self) -> (s: &'static str)
        ensures
            s@ == self.label_text(),
    {
        match self {
            BooleanOperation::Union => "Union",
            BooleanOperation::Subtract => "Subtract",
            BooleanOperation::Intersect => "Intersect",
        }
    }
}

/// One oriented inner boundary of a STEP `BREP_WITH_VOIDS` solid.
#[derive(Clone, Copy, Debug, PartialEq, Eq, Structural)]
pub struct StepShellBoundary {
    /// Entity id of the underlying `CLOSED_SHELL` in the persisted DATA section.
    pub shell_id: u64,
    /// Whether the oriented shell uses the underlying shell's face orientation.
    pub orientation: bool,
}

/// The first void shell whose id is zero, the outer shell's, or an earlier
/// void shell's.
pub open spec fn bad_boundary(outer: u64, voids: Seq<StepShellBoundary>, i: int) -> bool {
    voids[i].shell_id == 0 || voids[i].shell_id == outer || exists|j: int|
        0 <= j < i && #[trigger] voids[j].shell_id == voids[i].shell_id
}

pub open spec fn step_boundary_problem(outer: u64, voids: Seq<StepShellBoundary>) -> Option<
    Seq<char>,
> {
    if voids.len() > MAX_STEP_VOID_SHELLS {
        Some("imported STEP solid exceeds the limit of 4096 void shells"@)
    } else if exists|i: int| 0 <= i < voids.len() && #[trigger] bad_boundary(outer, voids, i) {
        Some("imported STEP boundary shell ids must be non-zero and unique"@)
    } else {
        None
    }
}

/// At most 4096 void shells, each with a non-zero id distinct from the outer
/// shell and from each other.
pub fn validate_step_boundaries(outer_shell_id: u64, void_shells: &[StepShellBoundary]) -> (r:
    Result<(), DocumentError>)
    ensures
        match step_boundary_problem(outer_shell_id, void_shells@) {
            None => r is Ok,
            Some(m) => r matches Err(e) && e@ == DocumentFault::InvalidParameter(m),
        },
{
    if void_shells.len() > MAX_STEP_VOID_SHELLS {
        return Err(
            DocumentError::InvalidParameter(
                "imported STEP solid exceeds the limit of 4096 void shells".to_owned(),
            ),
        );
    }
    let mut i: usize = 0;
    while i < void_shells.len()
        invariant
            i <= void_shells@.len() <= MAX_STEP_VOID_SHELLS,
            forall|k: int| 0 <= k < i ==> !#[trigger] bad_boundary(outer_shell_id, void_shells@, k),
        decreases void_shells@.len() - i,
    {
        let id = void_shells[i].shell_id;
        let mut bad = id == 0 || id == outer_shell_id;
        let mut j: usize = 0;
        while j < i
            invariant
                i < void_shells@.len(),
                j <= i,
                id == void_shells@[i as int].shell_id,
                bad == (id == 0 || id == outer_shell_id || exists|m: int|
                    0 <= m < j && #[trigger] void_shells@[m].shell_id == id),
            decreases i - j,
        {
            if void_shells[j].shell_id == id {
                bad = true;
            }
            j += 1;
        }
        if bad {
            proof {
                assert(bad_boundary(outer_shell_id, void_shells@, i as int));
            }
            return Err(
                DocumentError::InvalidParameter(
                    "imported STEP boundary shell ids must be non-zero and unique".to_owned(),
                ),
            );
        }
        i += 1;
    }
    Ok(())
}

/// Where a two-dimensional sketch is attached.
#[derive(Clone, Copy, Debug, PartialEq, Eq, Structural)]
pub enum SketchPlane {
    WorldXy,
    WorldXz,
    WorldYz,
    DatumPlane { datum_id: FeatureId },
    /// A planar face, known by the feature that owns it.
    PlanarFace { feature_id: FeatureId },
}

impl SketchPlane {
    pub open spec fn dependency(self) -> Option<FeatureId> {
        match self {
            SketchPlane::DatumPlane { datum_id } => Some(datum_id),
            SketchPlane::PlanarFace { feature_id } => Some(feature_id),
            _ => None,
        }
    }

    /// The feature the attachment rests on, if any.
    pub fn dependency_id(&self) -> (r: Option<FeatureId>)
        ensures
            r == self.dependency(),
    {
        match self {
            SketchPlane::DatumPlane { datum_id } => Some(*datum_id),
            SketchPlane::PlanarFace { feature_id } => Some(*feature_id),
            _ => None,
        }
    }

    /// A datum or face attachment must name a non-zero feature.
    pub fn is_valid(&self) -> (r: bool)
        ensures
            r == (self.dependency() != Some(0u64)),
    {
        match self {
            SketchPlane::DatumPlane { datum_id } => *datum_id != 0,
            SketchPlane::PlanarFace { feature_id } => *feature_id != 0,
            _ => true,
        }
    }
}

/// A name as stored: trimmed and cut to 80 characters, or the fallback when blank.
pub open spec fn normalized(name: Seq<char>, fallback: Seq<char>) -> Seq<char> {
    let t = trimmed(name);
    if t.len() == 0 {
        fallback
    } else if t.len() <= MAX_FEATURE_NAME_CHARS {
        t
    } else {
        t.take(MAX_FEATURE_NAME_CHARS as int)
    }
}

pub fn normalized_name(name: &str, fallback: &str) -> (s: String)
    ensures
        s@ == normalized(name@, fallback@),
{
    let (chars, start, end) = trim_range(name);
    if start == end {
        return fallback.to_owned();
    }
    let stop = if end - start > MAX_FEATURE_NAME_CHARS {
        start + MAX_FEATURE_NAME_CHARS
    } else {
        end
    };
    let mut s = String::new();
    let mut i = start;
    while i < stop
        invariant
            start <= i <= stop <= end <= chars@.len(),
            s@ == chars@.subrange(start as int, i as int),
        decreases stop - i,
    {
        string_push(&mut s, chars[i]);
        proof {
            assert(chars@.subrange(start as int, i + 1) =~= chars@.subrange(
                start as int,
                i as int,
            ).push(chars@[i as int]));
        }
        i += 1;
    }
    proof {
        assert(s@ =~= normalized(name@, fallback@));
    }
    s
}

/// What the dependency graph reads of a feature's definition: its kind and
/// the features it consumes.
pub enum FeatureLink {
    /// Box, cylinder, sphere, cone, torus, polygon extrusion or imported STEP solid.
    Standalone,
    /// An extrusion or revolve of a sketch profile.
    SketchProfile { sketch_id: FeatureId },
    /// A loft through ordered sketches.
    Loft { sketch_ids: Vec<FeatureId> },
    Boolean { operation: BooleanOperation, left: FeatureId, right: FeatureId },
    /// A chamfer or fillet; the source is the feature owning its first edge.
    EdgeModifier { source: Option<FeatureId> },
    /// A datum plane on a face of `face_feature`.
    DatumPlane { face_feature: FeatureId },
    /// A datum point on a vertex of `vertex_feature`.
    DatumPoint { vertex_feature: FeatureId },
    Sketch { plane: SketchPlane },
}

/// Which primitive a feature is; it names new features and decides which
/// edits a feature accepts.
#[derive(Clone, Copy, Debug, PartialEq, Eq, Structural)]
pub enum FeatureKind {
    Box,
    Cylinder,
    Sphere,
    Cone,
    Torus,
    Extrusion,
    Revolve,
    Loft,
    ImportedStep,
    Boolean(BooleanOperation),
    Chamfer,
    Fillet,
    DatumPlane,
    DatumPoint,
    Sketch,
}

impl FeatureKind {
    /// The name a feature of this kind gets when none is given.
    pub open spec fn label_text(self) -> Seq<char> {
        match self {
            FeatureKind::Box => "Box"@,
            FeatureKind::Cylinder => "Cylinder"@,
            FeatureKind::Sphere => "Sphere"@,
            FeatureKind::Cone => "Cone"@,
            FeatureKind::Torus => "Torus"@,
            FeatureKind::Extrusion => "Extrusion"@,
            FeatureKind::Revolve => "Revolve"@,
            FeatureKind::Loft => "Loft"@,
            FeatureKind::ImportedStep => "Imported STEP"@,
            FeatureKind::Boolean(operation) => operation.label_text(),
            FeatureKind::Chamfer => "Chamfer"@,
            FeatureKind::Fillet => "Fillet"@,
            FeatureKind::DatumPlane => "Datum plane"@,
            FeatureKind::DatumPoint => "Datum point"@,
            FeatureKind::Sketch => "Sketch"@,
        }
    }

    pub fn label(self) -> (s: &'static str)
        ensures
            s@ == self.label_text(),
    {
        match self {
            FeatureKind::Box => "Box",
            FeatureKind::Cylinder => "Cylinder",
            FeatureKind::Sphere => "Sphere",
            FeatureKind::Cone => "Cone",
            FeatureKind::Torus => "Torus",
            FeatureKind::Extrusion => "Extrusion",
            FeatureKind::Revolve => "Revolve",
            FeatureKind::Loft => "Loft",
            FeatureKind::ImportedStep => "Imported STEP",
            FeatureKind::Boolean(operation) => operation.label(),
            FeatureKind::Chamfer => "Chamfer",
            FeatureKind::Fillet => "Fillet",
            FeatureKind::DatumPlane => "Datum plane",
            FeatureKind::DatumPoint => "Datum point",
            FeatureKind::Sketch => "Sketch",
        }
    }

    /// How a mismatch against this kind is reported.
    pub open spec fn expected_text(self) -> Seq<char> {
        match self {
            FeatureKind::Box => "box"@,
            FeatureKind::Cylinder => "cylinder"@,
            FeatureKind::Sphere => "sphere"@,
            FeatureKind::Cone => "cone"@,
            FeatureKind::Torus => "torus"@,
            FeatureKind::Extrusion => "extrusion"@,
            FeatureKind::Revolve => "revolve"@,
            FeatureKind::Loft => "loft"@,
            FeatureKind::ImportedStep => "imported STEP"@,
            FeatureKind::Boolean(_) => "boolean"@,
            FeatureKind::Chamfer => "chamfer"@,
            FeatureKind::Fillet => "fillet"@,
            FeatureKind::DatumPlane => "datum plane"@,
            FeatureKind::DatumPoint => "datum point"@,
            FeatureKind::Sketch => "sketch"@,
        }
    }

    pub fn expected(self) -> (s: &'static str)
        ensures
            s@ == self.expected_text(),
    {
        match self {
            FeatureKind::Box => "box",
            FeatureKind::Cylinder => "cylinder",
            FeatureKind::Sphere => "sphere",
            FeatureKind::Cone => "cone",
            FeatureKind::Torus => "torus",
            FeatureKind::Extrusion => "extrusion",
            FeatureKind::Revolve => "revolve",
            FeatureKind::Loft => "loft",
            FeatureKind::ImportedStep => "imported STEP",
            FeatureKind::Boolean(_) => "boolean",
            FeatureKind::Chamfer => "chamfer",
            FeatureKind::Fillet => "fillet",
            FeatureKind::DatumPlane => "datum plane",
            FeatureKind::DatumPoint => "datum point",
            FeatureKind::Sketch => "sketch",
        }
    }

    /// Kinds compared by variant, a boolean's operation included.
    pub fn same(self, other: Self) -> (r: bool)
        ensures
            r == (self == other),
    {
        match (self, other) {
            (FeatureKind::Boolean(a), FeatureKind::Boolean(b)) => match (a, b) {
                (BooleanOperation::Union, BooleanOperation::Union) => true,
                (BooleanOperation::Subtract, BooleanOperation::Subtract) => true,
                (BooleanOperation::Intersect, BooleanOperation::Intersect) => true,
                _ => false,
            },
            (FeatureKind::Box, FeatureKind::Box) => true,
            (FeatureKind::Cylinder, FeatureKind::Cylinder) => true,
            (FeatureKind::Sphere, FeatureKind::Sphere) => true,
            (FeatureKind::Cone, FeatureKind::Cone) => true,
            (FeatureKind::Torus, FeatureKind::Torus) => true,
            (FeatureKind::Extrusion, FeatureKind::Extrusion) => true,
            (FeatureKind::Revolve, FeatureKind::Revolve) => true,
            (FeatureKind::Loft, FeatureKind::Loft) => true,
            (FeatureKind::ImportedStep, FeatureKind::ImportedStep) => true,
            (FeatureKind::Chamfer, FeatureKind::Chamfer) => true,
            (FeatureKind::Fillet, FeatureKind::Fillet) => true,
            (FeatureKind::DatumPlane, FeatureKind::DatumPlane) => true,
            (FeatureKind::DatumPoint, FeatureKind::DatumPoint) => true,
            (FeatureKind::Sketch, FeatureKind::Sketch) => true,
            _ => false,
        }
    }
}

/// A feature of the model: its id, what it consumes, its kind, its name,
/// whether it is shown, and the name of its material, if any. Its geometry,
/// placement and colour stay with the host.
pub struct FeatureNode {
    pub id: FeatureId,
    pub link: FeatureLink,
    pub kind: FeatureKind,
    pub name: String,
    pub visible: bool,
    pub material: Option<String>,
}

/// The material name a feature carries, as characters.
pub open spec fn material_view(m: Option<String>) -> Option<Seq<char>> {
    match m {
        Some(s) => Some(s@),
        None => None,
    }
}

/// Two links consume the same features the same way (a loft's list
/// compared by its contents).
pub open spec fn same_link(a: FeatureLink, b: FeatureLink) -> bool {
    match (a, b) {
        (FeatureLink::Loft { sketch_ids: x }, FeatureLink::Loft { sketch_ids: y }) => x@ == y@,
        _ => a == b,
    }
}

/// Two features alike in every field, names and lists compared by content.
pub open spec fn node_alike(a: FeatureNode, b: FeatureNode) -> bool {
    &&& a.id == b.id
    &&& same_link(a.link, b.link)
    &&& a.kind == b.kind
    &&& a.name@ == b.name@
    &&& a.visible == b.visible
    &&& material_view(a.material) == material_view(b.material)
}

/// Feature lists alike position by position.
pub open spec fn nodes_alike(x: Seq<FeatureNode>, y: Seq<FeatureNode>) -> bool {
    &&& x.len() == y.len()
    &&& forall|i: int| 0 <= i < x.len() ==> node_alike(#[trigger] x[i], y[i])
}

/// A copy of a feature, alike in every field.
pub fn copy_node(n: &FeatureNode) -> (c: FeatureNode)
    ensures
        node_alike(c, *n),
{
    FeatureNode {
        id: n.id,
        link: n.link.copy_link(),
        kind: n.kind,
        name: n.name.clone(),
        visible: n.visible,
        material: copy_material(&n.material),
    }
}

/// Every feature list is alike itself.
pub proof fn lemma_nodes_alike_refl(x: Seq<FeatureNode>)
    ensures
        nodes_alike(x, x),
{
}

/// A copy of a material name.
pub fn copy_material(m: &Option<String>) -> (c: Option<String>)
    ensures
        material_view(c) == material_view(*m),
{
    match m {
        Some(s) => Some(s.clone()),
        None => None,
    }
}

impl FeatureLink {
    /// Features consumed, in definition order (an id may repeat).
    pub open spec fn deps(self) -> Seq<FeatureId> {
        match self {
            FeatureLink::Standalone => Seq::empty(),
            FeatureLink::SketchProfile { sketch_id } => seq![sketch_id],
            FeatureLink::Loft { sketch_ids } => sketch_ids@,
            FeatureLink::Boolean { left, right, .. } => seq![left, right],
            FeatureLink::EdgeModifier { source } => match source {
                Some(s) => seq![s],
                None => Seq::empty(),
            },
            FeatureLink::DatumPlane { face_feature } => seq![face_feature],
            FeatureLink::DatumPoint { vertex_feature } => seq![vertex_feature],
            FeatureLink::Sketch { plane } => match plane.dependency() {
                Some(d) => seq![d],
                None => Seq::empty(),
            },
        }
    }

    /// Sketches and datums create no solid.
    pub open spec fn is_reference(self) -> bool {
        self is Sketch || self is DatumPlane || self is DatumPoint
    }

    /// All upstream features this one consumes.
    pub fn dependencies(&self) -> (v: Vec<FeatureId>)
        ensures
            v@ == self.deps(),
    {
        match self {
            FeatureLink::Standalone => Vec::new(),
            FeatureLink::SketchProfile { sketch_id } => vec![*sketch_id],
            FeatureLink::Loft { sketch_ids } => {
                let v = sketch_ids.clone();
                proof {
                    assert(v@ =~= sketch_ids@);
                }
                v
            },
            FeatureLink::Boolean { left, right, .. } => vec![*left, *right],
            FeatureLink::EdgeModifier { source } => match source {
                Some(s) => vec![*s],
                None => Vec::new(),
            },
            FeatureLink::DatumPlane { face_feature } => vec![*face_feature],
            FeatureLink::DatumPoint { vertex_feature } => vec![*vertex_feature],
            FeatureLink::Sketch { plane } => match plane.dependency_id() {
                Some(d) => vec![d],
                None => Vec::new(),
            },
        }
    }

    /// A link that consumes the same features.
    pub fn copy_link(&self) -> (c: FeatureLink)
        ensures
            same_link(c, *self),
            c.deps() == self.deps(),
    {
        match self {
            FeatureLink::Standalone => FeatureLink::Standalone,
            FeatureLink::SketchProfile { sketch_id } => FeatureLink::SketchProfile { sketch_id: *sketch_id },
            FeatureLink::Loft { sketch_ids } => {
                let v = sketch_ids.clone();
                proof {
                    assert(v@ =~= sketch_ids@);
                }
                FeatureLink::Loft { sketch_ids: v }
            },
            FeatureLink::Boolean { operation, left, right } => FeatureLink::Boolean {
                operation: *operation,
                left: *left,
                right: *right,
            },
            FeatureLink::EdgeModifier { source } => FeatureLink::EdgeModifier { source: *source },
            FeatureLink::DatumPlane { face_feature } => FeatureLink::DatumPlane { face_feature: *face_feature },
            FeatureLink::DatumPoint { vertex_feature } => FeatureLink::DatumPoint { vertex_feature: *vertex_feature },
            FeatureLink::Sketch { plane } => FeatureLink::Sketch { plane: *plane },
        }
    }

    pub fn is_reference_geometry(&self) -> (r: bool)
        ensures
            r == self.is_reference(),
    {
        match self {
            FeatureLink::Sketch { .. } | FeatureLink::DatumPlane { .. }
            | FeatureLink::DatumPoint { .. } => true,
            _ => false,
        }
    }
}

/// A link consumes every feature it names: the sketch it profiles, each
/// lofted sketch, both boolean operands, an edge modifier's source, the
/// feature whose face or vertex carries a datum, and the datum or face a
/// sketch rests on; a standalone solid, a sourceless edge modifier and a
/// sketch on a world plane consume none.
pub proof fn law_links_consume_what_they_name(link: FeatureLink)
    ensures
        link is Standalone ==> link.deps().len() == 0,
        link matches FeatureLink::SketchProfile { sketch_id } ==> link.deps().contains(sketch_id),
        link matches FeatureLink::Loft { sketch_ids } ==> forall|k: int|
            0 <= k < sketch_ids@.len() ==> link.deps().contains(#[trigger] sketch_ids@[k]),
        link matches FeatureLink::Boolean { left, right, .. } ==> link.deps().contains(left)
            && link.deps().contains(right),
        link matches FeatureLink::EdgeModifier { source } ==> match source {
            Some(s) => link.deps().contains(s),
            None => link.deps().len() == 0,
        },
        link matches FeatureLink::DatumPlane { face_feature } ==> link.deps().contains(face_feature),
        link matches FeatureLink::DatumPoint { vertex_feature } ==> link.deps().contains(vertex_feature),
        link matches FeatureLink::Sketch { plane } ==> match plane {
            SketchPlane::DatumPlane { datum_id } => link.deps().contains(datum_id),
            SketchPlane::PlanarFace { feature_id } => link.deps().contains(feature_id),
            _ => link.deps().len() == 0,
        },
{
    match link {
        FeatureLink::SketchProfile { sketch_id } => {
            assert(link.deps()[0] == sketch_id);
        },
        FeatureLink::Loft { sketch_ids } => {
            assert forall|k: int| 0 <= k < sketch_ids@.len() implies link.deps().contains(
                #[trigger] sketch_ids@[k],
            ) by {
                assert(link.deps()[k] == sketch_ids@[k]);
            }
        },
        FeatureLink::Boolean { left, right, .. } => {
            assert(link.deps()[0] == left);
            assert(link.deps()[1] == right);
        },
        FeatureLink::EdgeModifier { source } => {
            if let Some(s) = source {
                assert(link.deps()[0] == s);
            }
        },
        FeatureLink::DatumPlane { face_feature } => {
            assert(link.deps()[0] == face_feature);
        },
        FeatureLink::DatumPoint { vertex_feature } => {
            assert(link.deps()[0] == vertex_feature);
        },
        FeatureLink::Sketch { plane } => {
            match plane {
                SketchPlane::DatumPlane { datum_id } => {
                    assert(link.deps()[0] == datum_id);
                },
                SketchPlane::PlanarFace { feature_id } => {
                    assert(link.deps()[0] == feature_id);
                },
                _ => {},
            }
        },
        FeatureLink::Standalone => {},
    }
}

} // verus!
