//! Kernel-neutral product structure: definitions, occurrences and mates, and
//! the load-time checks on hierarchy, ownership and drivers.
//!
//! Placement transforms, mate frames, axes, limits and states are floating
//! point; what their checks found is held here as a plain value beside each
//! occurrence and mate, and every rule on ids, names, references, ownership
//! and hierarchy is decided here.

use vstd::prelude::*;

use crate::feature::FeatureId;
use crate::text::{trimmed, trimmed_char_count};

verus! {

pub type AssemblyId = u64;

pub type ComponentDefinitionId = u64;

pub type ComponentOccurrenceId = u64;

pub type AssemblyMateId = u64;

pub const MAX_ASSEMBLY_NAME_LENGTH: usize = 160;

pub const MAX_COMPONENT_DEFINITIONS: usize = 65536;

pub const MAX_COMPONENT_OCCURRENCES: usize = 262144;

pub const MAX_OCCURRENCE_FEATURES: usize = 4096;

pub const MAX_ASSEMBLY_MATES: usize = 262143;

/// Stable identity of one ordered geometry body in a reusable definition.
#[derive(Debug, Clone, Copy, PartialEq, Eq, Hash, Structural)]
pub struct AssemblyDefinitionBody {
    pub assembly_id: AssemblyId,
    pub definition_id: ComponentDefinitionId,
    pub body_slot: usize,
}

/// Stable assembly ownership of one materialized feature body.
#[derive(Debug, Clone, Copy, PartialEq, Eq, Hash, Structural)]
pub struct AssemblyFeatureInstance {
    pub assembly_id: AssemblyId,
    pub definition_id: ComponentDefinitionId,
    pub occurrence_id: ComponentOccurrenceId,
    pub body_slot: usize,
}

impl AssemblyFeatureInstance {
    /// The reusable body this instance places: the same assembly, definition and slot.
    pub fn definition_body(self) -> (b: AssemblyDefinitionBody)
        ensures
            b == (AssemblyDefinitionBody {
                assembly_id: self.assembly_id,
                definition_id: self.definition_id,
                body_slot: self.body_slot,
            }),
    {
        AssemblyDefinitionBody {
            assembly_id: self.assembly_id,
            definition_id: self.definition_id,
            body_slot: self.body_slot,
        }
    }
}

#[allow(inconsistent_fields)]
#[derive(Debug, Clone, Copy, PartialEq, Eq, Structural)]
pub enum AssemblyError {
    InvalidAssemblyId(AssemblyId),
    InvalidName,
    InvalidDefinitionCount(usize),
    InvalidOccurrenceCount(usize),
    InvalidDefinitionId(ComponentDefinitionId),
    InvalidOccurrenceId(ComponentOccurrenceId),
    InvalidMateId(AssemblyMateId),
    InvalidSourceEntity,
    NonFiniteTransform,
    NonRigidTransform,
    MissingDefinition { occurrence: ComponentOccurrenceId, definition: ComponentDefinitionId },
    MissingParent { occurrence: ComponentOccurrenceId, parent: ComponentOccurrenceId },
    PartCannotContainOccurrence { parent: ComponentOccurrenceId, child: ComponentOccurrenceId },
    MissingRootOccurrence,
    UnusedDefinition(ComponentDefinitionId),
    OccurrenceCycle { occurrence: ComponentOccurrenceId },
    UnresolvableOccurrenceHierarchy,
    TooManyMates(usize),
    MateOccurrenceNotFound { mate: AssemblyMateId, occurrence: ComponentOccurrenceId },
    MateDrivesRoot { mate: AssemblyMateId, occurrence: ComponentOccurrenceId },
    MateParentMismatch {
        mate: AssemblyMateId,
        child: ComponentOccurrenceId,
        expected: ComponentOccurrenceId,
        actual: ComponentOccurrenceId,
    },
    OccurrenceDrivenMultipleTimes {
        occurrence: ComponentOccurrenceId,
        first: AssemblyMateId,
        second: AssemblyMateId,
    },
    InvalidMateAxis { mate: AssemblyMateId },
    InvalidMateLimits { mate: AssemblyMateId },
    NonFiniteMateState { mate: AssemblyMateId },
    FixedMateState { mate: AssemblyMateId },
    MateStateOutsideLimits { mate: AssemblyMateId },
    MateTransformMismatch { mate: AssemblyMateId, occurrence: ComponentOccurrenceId },
    TooManyOccurrenceFeatures { occurrence: ComponentOccurrenceId, count: usize },
    InvalidOccurrenceFeature { occurrence: ComponentOccurrenceId, feature: FeatureId },
    MissingFeature { occurrence: ComponentOccurrenceId, feature: FeatureId },
    NonSolidFeature { occurrence: ComponentOccurrenceId, feature: FeatureId },
    FeatureTransformMismatch { occurrence: ComponentOccurrenceId, feature: FeatureId },
    UnrepresentableFeatureTransform { occurrence: ComponentOccurrenceId },
    FeatureOwnedMultipleTimes {
        feature: FeatureId,
        first: ComponentOccurrenceId,
        second: ComponentOccurrenceId,
    },
}

/// Stable identity of one source entity in an embedded STEP physical file.
#[derive(Debug, Clone, Copy, PartialEq, Eq, Structural)]
pub struct StepEntityRef {
    pub data_section: usize,
    pub entity_id: u64,
}

impl StepEntityRef {
    /// A source entity id must be non-zero.
    pub fn validate(self) -> (r: Result<(), AssemblyError>)
        ensures
            r == (if self.entity_id == 0 {
                Err(AssemblyError::InvalidSourceEntity)
            } else {
                Ok(())
            }),
    {
        if self.entity_id == 0 {
            return Err(AssemblyError::InvalidSourceEntity);
        }
        Ok(())
    }
}

#[derive(Debug, Clone, Copy, PartialEq, Eq, Structural)]
pub enum ComponentKind {
    Part,
    Assembly,
}

/// One reusable product definition in an assembly.
pub struct ComponentDefinition {
    pub id: ComponentDefinitionId,
    pub name: String,
    pub kind: ComponentKind,
    pub source: Option<StepEntityRef>,
}

/// One placed use of a component definition, with what checking its
/// placement transform found.
pub struct OccurrenceRecord {
    pub id: ComponentOccurrenceId,
    pub name: String,
    pub definition_id: ComponentDefinitionId,
    pub parent_id: Option<ComponentOccurrenceId>,
    /// Direct suppression; a suppressed ancestor also suppresses this occurrence.
    pub suppressed: bool,
    /// Concrete feature bodies materialized for this occurrence.
    pub feature_ids: Vec<FeatureId>,
    pub source: Option<StepEntityRef>,
    /// The first fault of the placement transform, if any.
    pub transform_fault: Option<AssemblyError>,
}

/// One mate driving a child occurrence relative to its parent, with what
/// checking its frames, state, axis and limits found, and whether the child's
/// stored placement matches the solved pose.
pub struct MateRecord {
    pub id: AssemblyMateId,
    pub name: String,
    pub parent_occurrence_id: ComponentOccurrenceId,
    pub child_occurrence_id: ComponentOccurrenceId,
    /// The first fault of the mate's frames, state, axis or limits, if any.
    pub geometry_fault: Option<AssemblyError>,
    pub pose_matches: bool,
}

/// A product structure independent of kernel-native geometry.
pub struct AssemblyRecord {
    pub id: AssemblyId,
    pub name: String,
    pub definitions: Vec<ComponentDefinition>,
    pub occurrences: Vec<OccurrenceRecord>,
    pub mates: Vec<MateRecord>,
}

/// 1 to 160 characters once trimmed.
pub open spec fn name_ok(name: Seq<char>) -> bool {
    1 <= trimmed(name).len() <= MAX_ASSEMBLY_NAME_LENGTH
}

/// Assembly, component, occurrence and mate names hold 1 to 160 characters
/// once trimmed.
pub fn validate_name(name: &str) -> (r: Result<(), AssemblyError>)
    ensures
        r == (if name_ok(name@) {
            Ok(())
        } else {
            Err(AssemblyError::InvalidName)
        }),
{
    let count = trimmed_char_count(name);
    if count == 0 || count > MAX_ASSEMBLY_NAME_LENGTH {
        return Err(AssemblyError::InvalidName);
    }
    Ok(())
}

/// The first of two checks that fails.
pub open spec fn first_fault(a: Option<AssemblyError>, b: Option<AssemblyError>) -> Option<
    AssemblyError,
> {
    if a is Some {
        a
    } else {
        b
    }
}

pub open spec fn source_fault(s: Option<StepEntityRef>) -> Option<AssemblyError> {
    match s {
        Some(r) => if r.entity_id == 0 {
            Some(AssemblyError::InvalidSourceEntity)
        } else {
            None
        },
        None => None,
    }
}

pub open spec fn has_definition(defs: Seq<ComponentDefinition>, id: ComponentDefinitionId) -> bool {
    exists|j: int| 0 <= j < defs.len() && #[trigger] defs[j].id == id
}

pub open spec fn has_occurrence(occs: Seq<OccurrenceRecord>, id: ComponentOccurrenceId) -> bool {
    exists|j: int| 0 <= j < occs.len() && #[trigger] occs[j].id == id
}

pub open spec fn def_fault(defs: Seq<ComponentDefinition>, i: int) -> Option<AssemblyError> {
    let d = defs[i];
    if d.id == 0 || exists|j: int| 0 <= j < i && #[trigger] defs[j].id == d.id {
        Some(AssemblyError::InvalidDefinitionId(d.id))
    } else if !name_ok(d.name@) {
        Some(AssemblyError::InvalidName)
    } else {
        source_fault(d.source)
    }
}

pub open spec fn defs_fault_from(defs: Seq<ComponentDefinition>, i: int) -> Option<AssemblyError>
    decreases defs.len() - i,
{
    if i < 0 || i >= defs.len() {
        None
    } else {
        first_fault(def_fault(defs, i), defs_fault_from(defs, i + 1))
    }
}

pub open spec fn feature_fault(o: OccurrenceRecord, avail: Seq<FeatureId>, j: int) -> Option<
    AssemblyError,
> {
    let f = o.feature_ids@[j];
    if f == 0 || exists|k: int| 0 <= k < j && #[trigger] o.feature_ids@[k] == f {
        Some(AssemblyError::InvalidOccurrenceFeature { occurrence: o.id, feature: f })
    } else if !avail.contains(f) {
        Some(AssemblyError::MissingFeature { occurrence: o.id, feature: f })
    } else {
        None
    }
}

pub open spec fn features_fault_from(o: OccurrenceRecord, avail: Seq<FeatureId>, j: int) -> Option<
    AssemblyError,
>
    decreases o.feature_ids@.len() - j,
{
    if j < 0 || j >= o.feature_ids@.len() {
        None
    } else {
        first_fault(feature_fault(o, avail, j), features_fault_from(o, avail, j + 1))
    }
}

pub open spec fn occ_fault(
    defs: Seq<ComponentDefinition>,
    occs: Seq<OccurrenceRecord>,
    avail: Seq<FeatureId>,
    i: int,
) -> Option<AssemblyError> {
    let o = occs[i];
    if o.id == 0 || exists|j: int| 0 <= j < i && #[trigger] occs[j].id == o.id {
        Some(AssemblyError::InvalidOccurrenceId(o.id))
    } else if !name_ok(o.name@) {
        Some(AssemblyError::InvalidName)
    } else if !has_definition(defs, o.definition_id) {
        Some(AssemblyError::MissingDefinition { occurrence: o.id, definition: o.definition_id })
    } else if o.transform_fault is Some {
        o.transform_fault
    } else if source_fault(o.source) is Some {
        source_fault(o.source)
    } else if o.feature_ids@.len() > MAX_OCCURRENCE_FEATURES {
        Some(
            AssemblyError::TooManyOccurrenceFeatures {
                occurrence: o.id,
                count: o.feature_ids@.len() as usize,
            },
        )
    } else {
        features_fault_from(o, avail, 0)
    }
}

pub open spec fn occs_fault_from(
    defs: Seq<ComponentDefinition>,
    occs: Seq<OccurrenceRecord>,
    avail: Seq<FeatureId>,
    i: int,
) -> Option<AssemblyError>
    decreases occs.len() - i,
{
    if i < 0 || i >= occs.len() {
        None
    } else {
        first_fault(occ_fault(defs, occs, avail, i), occs_fault_from(defs, occs, avail, i + 1))
    }
}

/// The first occurrence, from position `i` on, with id `id`.
pub open spec fn occ_pos(occs: Seq<OccurrenceRecord>, id: ComponentOccurrenceId, i: int) -> Option<
    int,
>
    decreases occs.len() - i,
{
    if i < 0 || i >= occs.len() {
        None
    } else if occs[i].id == id {
        Some(i)
    } else {
        occ_pos(occs, id, i + 1)
    }
}

/// The first definition, from position `i` on, with id `id`.
pub open spec fn def_pos(defs: Seq<ComponentDefinition>, id: ComponentDefinitionId, i: int) -> Option<
    int,
>
    decreases defs.len() - i,
{
    if i < 0 || i >= defs.len() {
        None
    } else if defs[i].id == id {
        Some(i)
    } else {
        def_pos(defs, id, i + 1)
    }
}

/// The earliest occurrence before position `i` that owns feature `f`.
pub open spec fn owner_before(occs: Seq<OccurrenceRecord>, i: int, f: FeatureId, from: int) -> Option<
    ComponentOccurrenceId,
>
    decreases i - from,
{
    if from < 0 || from >= i {
        None
    } else if occs[from].feature_ids@.contains(f) {
        Some(occs[from].id)
    } else {
        owner_before(occs, i, f, from + 1)
    }
}

pub open spec fn ownership_fault_from(occs: Seq<OccurrenceRecord>, i: int, j: int) -> Option<
    AssemblyError,
>
    decreases occs[i].feature_ids@.len() - j,
{
    if j < 0 || j >= occs[i].feature_ids@.len() {
        None
    } else {
        let f = occs[i].feature_ids@[j];
        match owner_before(occs, i, f, 0) {
            Some(w) => Some(
                AssemblyError::FeatureOwnedMultipleTimes { feature: f, first: w, second: occs[i].id },
            ),
            None => ownership_fault_from(occs, i, j + 1),
        }
    }
}

/// The parent must exist and be of an assembly definition; the features must
/// not be owned by an earlier occurrence.
pub open spec fn link_fault(
    defs: Seq<ComponentDefinition>,
    occs: Seq<OccurrenceRecord>,
    i: int,
) -> Option<AssemblyError> {
    let o = occs[i];
    let parent_fault = match o.parent_id {
        Some(p) => match occ_pos(occs, p, 0) {
            None => Some(AssemblyError::MissingParent { occurrence: o.id, parent: p }),
            Some(k) => match def_pos(defs, occs[k].definition_id, 0) {
                Some(d) => if defs[d].kind != ComponentKind::Assembly {
                    Some(AssemblyError::PartCannotContainOccurrence { parent: p, child: o.id })
                } else {
                    None
                },
                None => None,
            },
        },
        None => None,
    };
    first_fault(parent_fault, ownership_fault_from(occs, i, 0))
}

pub open spec fn links_fault_from(
    defs: Seq<ComponentDefinition>,
    occs: Seq<OccurrenceRecord>,
    i: int,
) -> Option<AssemblyError>
    decreases occs.len() - i,
{
    if i < 0 || i >= occs.len() {
        None
    } else {
        first_fault(link_fault(defs, occs, i), links_fault_from(defs, occs, i + 1))
    }
}

/// The first definition, from position `i` on, that no occurrence uses.
pub open spec fn unused_from(defs: Seq<ComponentDefinition>, occs: Seq<OccurrenceRecord>, i: int) -> Option<
    AssemblyError,
>
    decreases defs.len() - i,
{
    if i < 0 || i >= defs.len() {
        None
    } else if !(exists|k: int| 0 <= k < occs.len() && #[trigger] occs[k].definition_id == defs[i].id) {
        Some(AssemblyError::UnusedDefinition(defs[i].id))
    } else {
        unused_from(defs, occs, i + 1)
    }
}

/// Following parents from `id`, a root (or an id without an occurrence) is
/// reached within `fuel` occurrences.
pub open spec fn reaches_root(occs: Seq<OccurrenceRecord>, id: ComponentOccurrenceId, fuel: nat) -> bool
    decreases fuel,
{
    if fuel == 0 {
        false
    } else {
        match occ_pos(occs, id, 0) {
            None => true,
            Some(k) => match occs[k].parent_id {
                None => true,
                Some(p) => reaches_root(occs, p, (fuel - 1) as nat),
            },
        }
    }
}

pub open spec fn cycles_from(occs: Seq<OccurrenceRecord>, i: int) -> Option<AssemblyError>
    decreases occs.len() - i,
{
    if i < 0 || i >= occs.len() {
        None
    } else if !reaches_root(occs, occs[i].id, occs.len()) {
        Some(AssemblyError::OccurrenceCycle { occurrence: occs[i].id })
    } else {
        cycles_from(occs, i + 1)
    }
}

pub open spec fn mate_own_fault(m: MateRecord) -> Option<AssemblyError> {
    if m.id == 0 {
        Some(AssemblyError::InvalidMateId(m.id))
    } else if !name_ok(m.name@) {
        Some(AssemblyError::InvalidName)
    } else {
        m.geometry_fault
    }
}

/// The earliest mate before position `i` driving `child`.
pub open spec fn driver_before(mates: Seq<MateRecord>, i: int, child: ComponentOccurrenceId, from: int) -> Option<
    AssemblyMateId,
>
    decreases i - from,
{
    if from < 0 || from >= i {
        None
    } else if mates[from].child_occurrence_id == child {
        Some(mates[from].id)
    } else {
        driver_before(mates, i, child, from + 1)
    }
}

pub open spec fn mate_fault(occs: Seq<OccurrenceRecord>, mates: Seq<MateRecord>, i: int) -> Option<
    AssemblyError,
> {
    let m = mates[i];
    if mate_own_fault(m) is Some {
        mate_own_fault(m)
    } else if exists|j: int| 0 <= j < i && #[trigger] mates[j].id == m.id {
        Some(AssemblyError::InvalidMateId(m.id))
    } else {
        match occ_pos(occs, m.child_occurrence_id, 0) {
            None => Some(
                AssemblyError::MateOccurrenceNotFound { mate: m.id, occurrence: m.child_occurrence_id },
            ),
            Some(c) => if !has_occurrence(occs, m.parent_occurrence_id) {
                Some(
                    AssemblyError::MateOccurrenceNotFound {
                        mate: m.id,
                        occurrence: m.parent_occurrence_id,
                    },
                )
            } else {
                match occs[c].parent_id {
                    None => Some(AssemblyError::MateDrivesRoot { mate: m.id, occurrence: occs[c].id }),
                    Some(actual) => if actual != m.parent_occurrence_id {
                        Some(
                            AssemblyError::MateParentMismatch {
                                mate: m.id,
                                child: occs[c].id,
                                expected: actual,
                                actual: m.parent_occurrence_id,
                            },
                        )
                    } else {
                        match driver_before(mates, i, occs[c].id, 0) {
                            Some(first) => Some(
                                AssemblyError::OccurrenceDrivenMultipleTimes {
                                    occurrence: occs[c].id,
                                    first,
                                    second: m.id,
                                },
                            ),
                            None => if !m.pose_matches {
                                Some(
                                    AssemblyError::MateTransformMismatch {
                                        mate: m.id,
                                        occurrence: occs[c].id,
                                    },
                                )
                            } else {
                                None
                            },
                        }
                    },
                }
            },
        }
    }
}

pub open spec fn mates_fault_from(occs: Seq<OccurrenceRecord>, mates: Seq<MateRecord>, i: int) -> Option<
    AssemblyError,
>
    decreases mates.len() - i,
{
    if i < 0 || i >= mates.len() {
        None
    } else {
        first_fault(mate_fault(occs, mates, i), mates_fault_from(occs, mates, i + 1))
    }
}

/// The first fault `validate` reports for an assembly, given the ids of the
/// features that exist.
pub open spec fn assembly_fault(a: AssemblyRecord, avail: Seq<FeatureId>) -> Option<AssemblyError> {
    let defs = a.definitions@;
    let occs = a.occurrences@;
    if a.id == 0 {
        Some(AssemblyError::InvalidAssemblyId(a.id))
    } else if !name_ok(a.name@) {
        Some(AssemblyError::InvalidName)
    } else if defs.len() == 0 || defs.len() > MAX_COMPONENT_DEFINITIONS {
        Some(AssemblyError::InvalidDefinitionCount(defs.len() as usize))
    } else if occs.len() == 0 || occs.len() > MAX_COMPONENT_OCCURRENCES {
        Some(AssemblyError::InvalidOccurrenceCount(occs.len() as usize))
    } else if defs_fault_from(defs, 0) is Some {
        defs_fault_from(defs, 0)
    } else if occs_fault_from(defs, occs, avail, 0) is Some {
        occs_fault_from(defs, occs, avail, 0)
    } else if links_fault_from(defs, occs, 0) is Some {
        links_fault_from(defs, occs, 0)
    } else if !(exists|k: int| 0 <= k < occs.len() && #[trigger] occs[k].parent_id is None) {
        Some(AssemblyError::MissingRootOccurrence)
    } else if unused_from(defs, occs, 0) is Some {
        unused_from(defs, occs, 0)
    } else if cycles_from(occs, 0) is Some {
        cycles_from(occs, 0)
    } else if a.mates@.len() > MAX_ASSEMBLY_MATES {
        Some(AssemblyError::TooManyMates(a.mates@.len() as usize))
    } else {
        mates_fault_from(occs, a.mates@, 0)
    }
}

fn find_definition(defs: &Vec<ComponentDefinition>, id: ComponentDefinitionId) -> (r: Option<usize>)
    ensures
        r matches Some(k) ==> def_pos(defs@, id, 0) == Some(k as int) && k < defs@.len()
            && defs@[k as int].id == id,
        r is None ==> def_pos(defs@, id, 0) is None && !has_definition(defs@, id),
{
    let mut i: usize = 0;
    while i < defs.len()
        invariant
            i <= defs@.len(),
            def_pos(defs@, id, 0) == def_pos(defs@, id, i as int),
            forall|j: int| 0 <= j < i ==> defs@[j].id != id,
        decreases defs@.len() - i,
    {
        if defs[i].id == id {
            return Some(i);
        }
        i += 1;
    }
    None
}

fn find_occurrence(occs: &Vec<OccurrenceRecord>, id: ComponentOccurrenceId) -> (r: Option<usize>)
    ensures
        r matches Some(k) ==> occ_pos(occs@, id, 0) == Some(k as int) && k < occs@.len()
            && occs@[k as int].id == id,
        r is None ==> occ_pos(occs@, id, 0) is None && !has_occurrence(occs@, id),
{
    let mut i: usize = 0;
    while i < occs.len()
        invariant
            i <= occs@.len(),
            occ_pos(occs@, id, 0) == occ_pos(occs@, id, i as int),
            forall|j: int| 0 <= j < i ==> occs@[j].id != id,
        decreases occs@.len() - i,
    {
        if occs[i].id == id {
            return Some(i);
        }
        i += 1;
    }
    None
}

fn check_source(s: Option<StepEntityRef>) -> (r: Option<AssemblyError>)
    ensures
        r == source_fault(s),
{
    match s {
        Some(src) => match src.validate() {
            Err(e) => Some(e),
            Ok(()) => None,
        },
        None => None,
    }
}

fn check_definitions(defs: &Vec<ComponentDefinition>) -> (r: Option<AssemblyError>)
    ensures
        r == defs_fault_from(defs@, 0),
{
    let mut i: usize = 0;
    while i < defs.len()
        invariant
            i <= defs@.len(),
            defs_fault_from(defs@, 0) == defs_fault_from(defs@, i as int),
        decreases defs@.len() - i,
    {
        let d = &defs[i];
        let mut repeated = d.id == 0;
        let mut j: usize = 0;
        while j < i
            invariant
                i < defs@.len(),
                j <= i,
                d == defs@[i as int],
                repeated == (d.id == 0 || exists|k: int| 0 <= k < j && #[trigger] defs@[k].id == d.id),
            decreases i - j,
        {
            if defs[j].id == d.id {
                repeated = true;
            }
            j += 1;
        }
        if repeated {
            return Some(AssemblyError::InvalidDefinitionId(d.id));
        }
        match validate_name(d.name.as_str()) {
            Err(e) => {
                return Some(e);
            },
            Ok(()) => {},
        }
        match check_source(d.source) {
            Some(e) => {
                return Some(e);
            },
            None => {},
        }
        i += 1;
    }
    None
}

fn check_features(o: &OccurrenceRecord, avail: &[FeatureId]) -> (r: Option<AssemblyError>)
    ensures
        r == features_fault_from(*o, avail@, 0),
{
    let fs = &o.feature_ids;
    let mut j: usize = 0;
    while j < fs.len()
        invariant
            j <= fs@.len(),
            fs@ == o.feature_ids@,
            features_fault_from(*o, avail@, 0) == features_fault_from(*o, avail@, j as int),
        decreases fs@.len() - j,
    {
        let f = fs[j];
        let mut repeated = f == 0;
        let mut k: usize = 0;
        while k < j
            invariant
                j < fs@.len(),
                k <= j,
                f == fs@[j as int],
                repeated == (f == 0 || exists|m: int| 0 <= m < k && #[trigger] fs@[m] == f),
            decreases j - k,
        {
            if fs[k] == f {
                repeated = true;
            }
            k += 1;
        }
        if repeated {
            return Some(AssemblyError::InvalidOccurrenceFeature { occurrence: o.id, feature: f });
        }
        let mut present = false;
        let mut m: usize = 0;
        while m < avail.len()
            invariant
                m <= avail@.len(),
                present == (exists|q: int| 0 <= q < m && avail@[q] == f),
            decreases avail@.len() - m,
        {
            if avail[m] == f {
                present = true;
            }
            m += 1;
        }
        if !present {
            proof {
                if avail@.contains(f) {
                    let q = choose|q: int| 0 <= q < avail@.len() && avail@[q] == f;
                    assert(avail@[q] == f);
                }
            }
            return Some(AssemblyError::MissingFeature { occurrence: o.id, feature: f });
        }
        j += 1;
    }
    None
}

fn check_occurrences(
    defs: &Vec<ComponentDefinition>,
    occs: &Vec<OccurrenceRecord>,
    avail: &[FeatureId],
) -> (r: Option<AssemblyError>)
    ensures
        r == occs_fault_from(defs@, occs@, avail@, 0),
{
    let mut i: usize = 0;
    while i < occs.len()
        invariant
            i <= occs@.len(),
            occs_fault_from(defs@, occs@, avail@, 0) == occs_fault_from(
                defs@,
                occs@,
                avail@,
                i as int,
            ),
        decreases occs@.len() - i,
    {
        let o = &occs[i];
        let mut repeated = o.id == 0;
        let mut j: usize = 0;
        while j < i
            invariant
                i < occs@.len(),
                j <= i,
                o == occs@[i as int],
                repeated == (o.id == 0 || exists|k: int| 0 <= k < j && #[trigger] occs@[k].id == o.id),
            decreases i - j,
        {
            if occs[j].id == o.id {
                repeated = true;
            }
            j += 1;
        }
        if repeated {
            return Some(AssemblyError::InvalidOccurrenceId(o.id));
        }
        match validate_name(o.name.as_str()) {
            Err(e) => {
                return Some(e);
            },
            Ok(()) => {},
        }
        if find_definition(defs, o.definition_id).is_none() {
            return Some(
                AssemblyError::MissingDefinition { occurrence: o.id, definition: o.definition_id },
            );
        }
        match o.transform_fault {
            Some(e) => {
                return Some(e);
            },
            None => {},
        }
        match check_source(o.source) {
            Some(e) => {
                return Some(e);
            },
            None => {},
        }
        if o.feature_ids.len() > MAX_OCCURRENCE_FEATURES {
            return Some(
                AssemblyError::TooManyOccurrenceFeatures {
                    occurrence: o.id,
                    count: o.feature_ids.len(),
                },
            );
        }
        match check_features(o, avail) {
            Some(e) => {
                return Some(e);
            },
            None => {},
        }
        i += 1;
    }
    None
}

fn owner_of(occs: &Vec<OccurrenceRecord>, i: usize, f: FeatureId) -> (r: Option<
    ComponentOccurrenceId,
>)
    requires
        i <= occs@.len(),
    ensures
        r == owner_before(occs@, i as int, f, 0),
{
    let mut k: usize = 0;
    while k < i
        invariant
            k <= i <= occs@.len(),
            owner_before(occs@, i as int, f, 0) == owner_before(occs@, i as int, f, k as int),
        decreases i - k,
    {
        let fs = &occs[k].feature_ids;
        let mut found = false;
        let mut m: usize = 0;
        while m < fs.len()
            invariant
                m <= fs@.len(),
                fs@ == occs@[k as int].feature_ids@,
                found == (exists|q: int| 0 <= q < m && fs@[q] == f),
            decreases fs@.len() - m,
        {
            if fs[m] == f {
                found = true;
            }
            m += 1;
        }
        proof {
            if occs@[k as int].feature_ids@.contains(f) {
                let q = choose|q: int| 0 <= q < fs@.len() && fs@[q] == f;
                assert(fs@[q] == f);
            }
        }
        if found {
            return Some(occs[k].id);
        }
        k += 1;
    }
    None
}

fn check_ownership(occs: &Vec<OccurrenceRecord>, i: usize) -> (r: Option<AssemblyError>)
    requires
        i < occs@.len(),
    ensures
        r == ownership_fault_from(occs@, i as int, 0),
{
    let o = &occs[i];
    let fs = &o.feature_ids;
    let mut j: usize = 0;
    while j < fs.len()
        invariant
            i < occs@.len(),
            j <= fs@.len(),
            o == occs@[i as int],
            fs@ == o.feature_ids@,
            ownership_fault_from(occs@, i as int, 0) == ownership_fault_from(
                occs@,
                i as int,
                j as int,
            ),
        decreases fs@.len() - j,
    {
        match owner_of(occs, i, fs[j]) {
            Some(w) => {
                return Some(
                    AssemblyError::FeatureOwnedMultipleTimes { feature: fs[j], first: w, second: o.id },
                );
            },
            None => {},
        }
        j += 1;
    }
    None
}

fn driver_of(mates: &Vec<MateRecord>, i: usize, child: ComponentOccurrenceId) -> (r: Option<
    AssemblyMateId,
>)
    requires
        i <= mates@.len(),
    ensures
        r == driver_before(mates@, i as int, child, 0),
{
    let mut k: usize = 0;
    while k < i
        invariant
            k <= i <= mates@.len(),
            driver_before(mates@, i as int, child, 0) == driver_before(
                mates@,
                i as int,
                child,
                k as int,
            ),
        decreases i - k,
    {
        if mates[k].child_occurrence_id == child {
            return Some(mates[k].id);
        }
        k += 1;
    }
    None
}

fn check_links(defs: &Vec<ComponentDefinition>, occs: &Vec<OccurrenceRecord>) -> (r: Option<
    AssemblyError,
>)
    ensures
        r == links_fault_from(defs@, occs@, 0),
{
    let mut i: usize = 0;
    while i < occs.len()
        invariant
            i <= occs@.len(),
            links_fault_from(defs@, occs@, 0) == links_fault_from(defs@, occs@, i as int),
        decreases occs@.len() - i,
    {
        let o = &occs[i];
        match o.parent_id {
            Some(p) => match find_occurrence(occs, p) {
                None => {
                    return Some(AssemblyError::MissingParent { occurrence: o.id, parent: p });
                },
                Some(k) => match find_definition(defs, occs[k].definition_id) {
                    Some(d) => {
                        if defs[d].kind != ComponentKind::Assembly {
                            return Some(
                                AssemblyError::PartCannotContainOccurrence { parent: p, child: o.id },
                            );
                        }
                    },
                    None => {},
                },
            },
            None => {},
        }
        match check_ownership(occs, i) {
            Some(e) => {
                return Some(e);
            },
            None => {},
        }
        i += 1;
    }
    None
}

fn check_unused(defs: &Vec<ComponentDefinition>, occs: &Vec<OccurrenceRecord>) -> (r: Option<
    AssemblyError,
>)
    ensures
        r == unused_from(defs@, occs@, 0),
{
    let mut i: usize = 0;
    while i < defs.len()
        invariant
            i <= defs@.len(),
            unused_from(defs@, occs@, 0) == unused_from(defs@, occs@, i as int),
        decreases defs@.len() - i,
    {
        let id = defs[i].id;
        let mut used = false;
        let mut k: usize = 0;
        while k < occs.len()
            invariant
                i < defs@.len(),
                k <= occs@.len(),
                id == defs@[i as int].id,
                used == (exists|q: int| 0 <= q < k && #[trigger] occs@[q].definition_id == id),
            decreases occs@.len() - k,
        {
            if occs[k].definition_id == id {
                used = true;
            }
            k += 1;
        }
        if !used {
            return Some(AssemblyError::UnusedDefinition(id));
        }
        i += 1;
    }
    None
}

fn check_cycles(occs: &Vec<OccurrenceRecord>) -> (r: Option<AssemblyError>)
    ensures
        r == cycles_from(occs@, 0),
{
    let n = occs.len();
    let mut i: usize = 0;
    while i < n
        invariant
            i <= n == occs@.len(),
            cycles_from(occs@, 0) == cycles_from(occs@, i as int),
        decreases n - i,
    {
        let mut current = occs[i].id;
        let mut fuel: usize = n;
        let mut reached = false;
        while fuel > 0 && !reached
            invariant
                i < n == occs@.len(),
                fuel <= n,
                reached || reaches_root(occs@, occs@[i as int].id, n as nat) == reaches_root(
                    occs@,
                    current,
                    fuel as nat,
                ),
                reached ==> reaches_root(occs@, occs@[i as int].id, n as nat),
            decreases 2 * fuel + if reached {
                0int
            } else {
                1int
            },
        {
            match find_occurrence(occs, current) {
                None => {
                    reached = true;
                },
                Some(k) => match occs[k].parent_id {
                    None => {
                        reached = true;
                    },
                    Some(p) => {
                        current = p;
                        fuel = fuel - 1;
                    },
                },
            }
        }
        if !reached {
            return Some(AssemblyError::OccurrenceCycle { occurrence: occs[i].id });
        }
        i += 1;
    }
    None
}

fn check_mates(occs: &Vec<OccurrenceRecord>, mates: &Vec<MateRecord>) -> (r: Option<AssemblyError>)
    ensures
        r == mates_fault_from(occs@, mates@, 0),
{
    let mut i: usize = 0;
    while i < mates.len()
        invariant
            i <= mates@.len(),
            mates_fault_from(occs@, mates@, 0) == mates_fault_from(occs@, mates@, i as int),
        decreases mates@.len() - i,
    {
        let m = &mates[i];
        if m.id == 0 {
            return Some(AssemblyError::InvalidMateId(m.id));
        }
        match validate_name(m.name.as_str()) {
            Err(e) => {
                return Some(e);
            },
            Ok(()) => {},
        }
        match m.geometry_fault {
            Some(e) => {
                return Some(e);
            },
            None => {},
        }
        let mut repeated = false;
        let mut j: usize = 0;
        while j < i
            invariant
                i < mates@.len(),
                j <= i,
                m == mates@[i as int],
                repeated == (exists|k: int| 0 <= k < j && #[trigger] mates@[k].id == m.id),
            decreases i - j,
        {
            if mates[j].id == m.id {
                repeated = true;
            }
            j += 1;
        }
        if repeated {
            return Some(AssemblyError::InvalidMateId(m.id));
        }
        let c = match find_occurrence(occs, m.child_occurrence_id) {
            None => {
                return Some(
                    AssemblyError::MateOccurrenceNotFound {
                        mate: m.id,
                        occurrence: m.child_occurrence_id,
                    },
                );
            },
            Some(c) => c,
        };
        if find_occurrence(occs, m.parent_occurrence_id).is_none() {
            return Some(
                AssemblyError::MateOccurrenceNotFound { mate: m.id, occurrence: m.parent_occurrence_id },
            );
        }
        let child_id = occs[c].id;
        let actual = match occs[c].parent_id {
            None => {
                return Some(AssemblyError::MateDrivesRoot { mate: m.id, occurrence: child_id });
            },
            Some(a) => a,
        };
        if actual != m.parent_occurrence_id {
            return Some(
                AssemblyError::MateParentMismatch {
                    mate: m.id,
                    child: child_id,
                    expected: actual,
                    actual: m.parent_occurrence_id,
                },
            );
        }
        match driver_of(mates, i, child_id) {
            Some(first) => {
                return Some(
                    AssemblyError::OccurrenceDrivenMultipleTimes {
                        occurrence: child_id,
                        first,
                        second: m.id,
                    },
                );
            },
            None => {},
        }
        if !m.pose_matches {
            return Some(AssemblyError::MateTransformMismatch { mate: m.id, occurrence: child_id });
        }
        i += 1;
    }
    None
}

impl AssemblyRecord {
    /// Checks ids, names, counts, references, feature ownership, hierarchy,
    /// and mate drivers, reporting the first fault found.
    pub fn validate(&self, available_features: &[FeatureId]) -> (r: Result<(), AssemblyError>)
        ensures
            r == (match assembly_fault(*self, available_features@) {
                Some(e) => Err(e),
                None => Ok(()),
            }),
    {
        if self.id == 0 {
            return Err(AssemblyError::InvalidAssemblyId(self.id));
        }
        match validate_name(self.name.as_str()) {
            Err(e) => {
                return Err(e);
            },
            Ok(()) => {},
        }
        if self.definitions.len() == 0 || self.definitions.len() > MAX_COMPONENT_DEFINITIONS {
            return Err(AssemblyError::InvalidDefinitionCount(self.definitions.len()));
        }
        if self.occurrences.len() == 0 || self.occurrences.len() > MAX_COMPONENT_OCCURRENCES {
            return Err(AssemblyError::InvalidOccurrenceCount(self.occurrences.len()));
        }
        match check_definitions(&self.definitions) {
            Some(e) => {
                return Err(e);
            },
            None => {},
        }
        match check_occurrences(&self.definitions, &self.occurrences, available_features) {
            Some(e) => {
                return Err(e);
            },
            None => {},
        }
        match check_links(&self.definitions, &self.occurrences) {
            Some(e) => {
                return Err(e);
            },
            None => {},
        }
        let mut has_root = false;
        let mut k: usize = 0;
        while k < self.occurrences.len()
            invariant
                k <= self.occurrences@.len(),
                has_root == (exists|q: int|
                    0 <= q < k && #[trigger] self.occurrences@[q].parent_id is None),
            decreases self.occurrences@.len() - k,
        {
            if self.occurrences[k].parent_id.is_none() {
                has_root = true;
            }
            k += 1;
        }
        if !has_root {
            return Err(AssemblyError::MissingRootOccurrence);
        }
        match check_unused(&self.definitions, &self.occurrences) {
            Some(e) => {
                return Err(e);
            },
            None => {},
        }
        match check_cycles(&self.occurrences) {
            Some(e) => {
                return Err(e);
            },
            None => {},
        }
        if self.mates.len() > MAX_ASSEMBLY_MATES {
            return Err(AssemblyError::TooManyMates(self.mates.len()));
        }
        match check_mates(&self.occurrences, &self.mates) {
            Some(e) => Err(e),
            None => Ok(()),
        }
    }
}

/// Resolves one occurrence against the suppression known so far: a root
/// keeps its own state, a child whose parent is resolved inherits it, and any
/// other occurrence stays unresolved.
pub open spec fn resolve_one(eff: Map<ComponentOccurrenceId, bool>, o: OccurrenceRecord) -> Option<
    Map<ComponentOccurrenceId, bool>,
> {
    match o.parent_id {
        None => Some(eff.insert(o.id, o.suppressed)),
        Some(p) => if eff.contains_key(p) {
            Some(eff.insert(o.id, o.suppressed || eff[p]))
        } else {
            None
        },
    }
}

/// One pass over the unresolved occurrences in order: what is known after
/// it, and the occurrences still unresolved.
pub open spec fn suppression_round(
    eff: Map<ComponentOccurrenceId, bool>,
    pending: Seq<OccurrenceRecord>,
) -> (Map<ComponentOccurrenceId, bool>, Seq<OccurrenceRecord>)
    decreases pending.len(),
{
    if pending.len() == 0 {
        (eff, Seq::empty())
    } else {
        match resolve_one(eff, pending[0]) {
            Some(next) => suppression_round(next, pending.drop_first()),
            None => {
                let (last, rest) = suppression_round(eff, pending.drop_first());
                (last, seq![pending[0]] + rest)
            },
        }
    }
}

/// Passes until nothing is unresolved; a pass that resolves nothing means a
/// cycle or a missing parent.
pub open spec fn suppression_passes(
    eff: Map<ComponentOccurrenceId, bool>,
    pending: Seq<OccurrenceRecord>,
    fuel: nat,
) -> Result<Map<ComponentOccurrenceId, bool>, AssemblyError>
    decreases fuel,
{
    if pending.len() == 0 {
        Ok(eff)
    } else if fuel == 0 {
        Err(AssemblyError::UnresolvableOccurrenceHierarchy)
    } else {
        let (next, rest) = suppression_round(eff, pending);
        if rest.len() == pending.len() {
            Err(AssemblyError::UnresolvableOccurrenceHierarchy)
        } else {
            suppression_passes(next, rest, (fuel - 1) as nat)
        }
    }
}

/// The effective suppression of every occurrence: its own, or that of any ancestor.
pub open spec fn effective_suppression_of(occs: Seq<OccurrenceRecord>) -> Result<
    Map<ComponentOccurrenceId, bool>,
    AssemblyError,
> {
    suppression_passes(Map::empty(), occs, occs.len())
}

/// Entries with strictly increasing keys, read as a map.
pub open spec fn entries_map(s: Seq<(u64, bool)>) -> Map<u64, bool> {
    Map::new(
        |k: u64| exists|i: int| 0 <= i < s.len() && #[trigger] s[i].0 == k,
        |k: u64| s[choose|i: int| 0 <= i < s.len() && s[i].0 == k].1,
    )
}

pub open spec fn keys_sorted(s: Seq<(u64, bool)>) -> bool {
    forall|i: int, j: int| 0 <= i < j < s.len() ==> s[i].0 < s[j].0
}

pub proof fn lemma_entries_value(s: Seq<(u64, bool)>, i: int)
    requires
        keys_sorted(s),
        0 <= i < s.len(),
    ensures
        entries_map(s).contains_key(s[i].0),
        entries_map(s)[s[i].0] == s[i].1,
{
    let c = choose|c: int| 0 <= c < s.len() && s[c].0 == s[i].0;
    assert(s[c].0 == s[i].0);
    if c < i {
        assert(s[c].0 < s[i].0);
    } else if c > i {
        assert(s[i].0 < s[c].0);
    }
}

/// Sets `k` to `v`, keeping the keys strictly increasing.
fn upsert(s: &mut Vec<(u64, bool)>, k: u64, v: bool)
    requires
        keys_sorted(old(s)@),
    ensures
        keys_sorted(final(s)@),
        entries_map(final(s)@) == entries_map(old(s)@).insert(k, v),
{
    let ghost before = s@;
    let mut p: usize = 0;
    while p < s.len() && s[p].0 < k
        invariant
            p <= s@.len(),
            s@ == before,
            forall|j: int| 0 <= j < p ==> before[j].0 < k,
        decreases s@.len() - p,
    {
        p += 1;
    }
    if p < s.len() && s[p].0 == k {
        s.set(p, (k, v));
        proof {
            let t = s@;
            assert(t == before.update(p as int, (k, v)));
            assert forall|x: u64| #[trigger] entries_map(t).contains_key(x) <==> entries_map(before).insert(k, v).contains_key(x) by {
                if exists|i: int| 0 <= i < t.len() && #[trigger] t[i].0 == x {
                    let i = choose|i: int| 0 <= i < t.len() && #[trigger] t[i].0 == x;
                    if i != p {
                        assert(before[i].0 == x);
                    }
                }
                if exists|i: int| 0 <= i < before.len() && #[trigger] before[i].0 == x {
                    let i = choose|i: int| 0 <= i < before.len() && #[trigger] before[i].0 == x;
                    assert(t[i].0 == x);
                }
                if x == k {
                    assert(t[p as int].0 == x);
                }
            }
            assert forall|x: u64| #[trigger] entries_map(t).contains_key(x) implies entries_map(t)[x] == entries_map(before).insert(k, v)[x] by {
                let i = choose|i: int| 0 <= i < t.len() && #[trigger] t[i].0 == x;
                lemma_entries_value(t, i);
                if i != p {
                    lemma_entries_value(before, i);
                }
            }
            assert(entries_map(t) =~= entries_map(before).insert(k, v));
        }
        return;
    }
    s.insert(p, (k, v));
    proof {
        let t = s@;
        assert(t == before.insert(p as int, (k, v)));
        assert forall|i: int, j: int| 0 <= i < j < t.len() implies t[i].0 < t[j].0 by {
            if j < p {
                assert(t[i] == before[i] && t[j] == before[j]);
            } else if j == p {
                assert(t[i] == before[i]);
            } else if i < p {
                assert(t[i] == before[i] && t[j] == before[j - 1]);
            } else if i == p {
                assert(t[j] == before[j - 1]);
                assert(before[p as int].0 > k);
                if j - 1 > p {
                    assert(before[p as int].0 < before[j - 1].0);
                }
            } else {
                assert(t[i] == before[i - 1] && t[j] == before[j - 1]);
            }
        }
        assert forall|x: u64| #[trigger] entries_map(t).contains_key(x) <==> entries_map(before).insert(k, v).contains_key(x) by {
            if exists|i: int| 0 <= i < t.len() && #[trigger] t[i].0 == x {
                let i = choose|i: int| 0 <= i < t.len() && #[trigger] t[i].0 == x;
                if i < p {
                    assert(before[i].0 == x);
                } else if i > p {
                    assert(before[i - 1].0 == x);
                }
            }
            if exists|i: int| 0 <= i < before.len() && #[trigger] before[i].0 == x {
                let i = choose|i: int| 0 <= i < before.len() && #[trigger] before[i].0 == x;
                if i < p {
                    assert(t[i].0 == x);
                } else {
                    assert(t[i + 1].0 == x);
                }
            }
            if x == k {
                assert(t[p as int].0 == x);
            }
        }
        assert forall|x: u64| #[trigger] entries_map(t).contains_key(x) implies entries_map(t)[x] == entries_map(before).insert(k, v)[x] by {
            let i = choose|i: int| 0 <= i < t.len() && #[trigger] t[i].0 == x;
            lemma_entries_value(t, i);
            if i < p {
                lemma_entries_value(before, i);
            } else if i > p {
                lemma_entries_value(before, i - 1);
            }
        }
        assert(entries_map(t) =~= entries_map(before).insert(k, v));
    }
}

/// The value stored under `k`, if any.
fn lookup_entry(s: &Vec<(u64, bool)>, k: u64) -> (r: Option<bool>)
    requires
        keys_sorted(s@),
    ensures
        r == (if entries_map(s@).contains_key(k) {
            Some(entries_map(s@)[k])
        } else {
            None
        }),
{
    let mut i: usize = 0;
    while i < s.len()
        invariant
            i <= s@.len(),
            keys_sorted(s@),
            forall|j: int| 0 <= j < i ==> s@[j].0 != k,
        decreases s@.len() - i,
    {
        if s[i].0 == k {
            proof {
                lemma_entries_value(s@, i as int);
            }
            return Some(s[i].1);
        }
        i += 1;
    }
    proof {
        if entries_map(s@).contains_key(k) {
            let j = choose|j: int| 0 <= j < s@.len() && #[trigger] s@[j].0 == k;
            assert(s@[j].0 == k);
        }
    }
    None
}

impl AssemblyRecord {
    /// Resolves direct and inherited suppression for the whole hierarchy, in
    /// increasing occurrence id; a cycle or a missing parent makes it
    /// unresolvable.
    pub fn effective_suppression(&self) -> (r: Result<Vec<(ComponentOccurrenceId, bool)>, AssemblyError>)
        ensures
            match effective_suppression_of(self.occurrences@) {
                Ok(m) => r matches Ok(v) && keys_sorted(v@) && entries_map(v@) == m,
                Err(e) => r == Err::<Vec<(ComponentOccurrenceId, bool)>, AssemblyError>(e),
            },
    {
        let occs = &self.occurrences;
        let ghost all = occs@;
        let mut effective: Vec<(u64, bool)> = Vec::new();
        let mut pending: Vec<usize> = Vec::new();
        let mut i: usize = 0;
        while i < occs.len()
            invariant
                i <= occs@.len(),
                pending@.len() == i,
                forall|j: int| 0 <= j < i ==> pending@[j] == j,
            decreases occs@.len() - i,
        {
            pending.push(i);
            i += 1;
        }
        proof {
            assert(pending@.map_values(|j: usize| all[j as int]) =~= all);
            assert(entries_map(effective@) =~= Map::<u64, bool>::empty());
        }
        let mut fuel: usize = occs.len();
        loop
            invariant
                all == occs@,
                all == self.occurrences@,
                keys_sorted(effective@),
                forall|j: int| 0 <= j < pending@.len() ==> #[trigger] pending@[j] < all.len(),
                effective_suppression_of(all) == suppression_passes(
                    entries_map(effective@),
                    pending@.map_values(|j: usize| all[j as int]),
                    fuel as nat,
                ),
            decreases fuel,
        {
            let ghost pend = pending@.map_values(|j: usize| all[j as int]);
            if pending.len() == 0 {
                proof {
                    assert(pend.len() == 0);
                    assert(suppression_passes(entries_map(effective@), pend, fuel as nat) == Ok::<
                        Map<u64, bool>,
                        AssemblyError,
                    >(entries_map(effective@)));
                    assert(effective_suppression_of(self.occurrences@) == Ok::<
                        Map<u64, bool>,
                        AssemblyError,
                    >(entries_map(effective@)));
                }
                return Ok(effective);
            }
            if fuel == 0 {
                return Err(AssemblyError::UnresolvableOccurrenceHierarchy);
            }
            let ghost start = entries_map(effective@);
            let mut kept: Vec<usize> = Vec::new();
            let mut k: usize = 0;
            proof {
                assert(pend.skip(0) =~= pend);
                assert(kept@.map_values(|j: usize| all[j as int]) + suppression_round(start, pend).1
                    =~= suppression_round(start, pend).1);
            }
            while k < pending.len()
                invariant
                    all == occs@,
                    k <= pending@.len(),
                    pend == pending@.map_values(|j: usize| all[j as int]),
                    keys_sorted(effective@),
                    forall|j: int| 0 <= j < pending@.len() ==> #[trigger] pending@[j] < all.len(),
                    forall|j: int| 0 <= j < kept@.len() ==> #[trigger] kept@[j] < all.len(),
                    kept@.len() <= k,
                    suppression_round(start, pend).0 == suppression_round(
                        entries_map(effective@),
                        pend.skip(k as int),
                    ).0,
                    suppression_round(start, pend).1 == kept@.map_values(|j: usize| all[j as int])
                        + suppression_round(entries_map(effective@), pend.skip(k as int)).1,
                decreases pending@.len() - k,
            {
                let o = &occs[pending[k]];
                let ghost eff = entries_map(effective@);
                proof {
                    assert(pend.skip(k as int).drop_first() =~= pend.skip(k + 1));
                    assert(pend.skip(k as int)[0] == *o);
                }
                let inherited = match o.parent_id {
                    None => Some(false),
                    Some(p) => lookup_entry(&effective, p),
                };
                match inherited {
                    None => {
                        let ghost kept_before = kept@.map_values(|j: usize| all[j as int]);
                        kept.push(pending[k]);
                        proof {
                            let m = kept@.map_values(|j: usize| all[j as int]);
                            assert(m =~= kept_before.push(*o));
                            let r = suppression_round(eff, pend.skip(k + 1));
                            assert(suppression_round(eff, pend.skip(k as int)).1 == seq![*o] + r.1);
                            assert(kept_before + (seq![*o] + r.1) =~= m + r.1);
                        }
                    },
                    Some(b) => {
                        upsert(&mut effective, o.id, o.suppressed || b);
                    },
                }
                k += 1;
            }
            proof {
                assert(pend.skip(pending@.len() as int) =~= Seq::<OccurrenceRecord>::empty());
            }
            if kept.len() == pending.len() {
                return Err(AssemblyError::UnresolvableOccurrenceHierarchy);
            }
            pending = kept;
            fuel = fuel - 1;
        }
    }
}

/// Occurrence `o` is resolved in `eff`, with its own state if it is a root
/// and its own state or its parent's otherwise.
pub open spec fn inherits(o: OccurrenceRecord, eff: Map<ComponentOccurrenceId, bool>) -> bool {
    &&& eff.contains_key(o.id)
    &&& match o.parent_id {
        None => eff[o.id] == o.suppressed,
        Some(p) => eff.contains_key(p) && eff[o.id] == (o.suppressed || eff[p]),
    }
}

pub open spec fn occurrence_ids_distinct(occs: Seq<OccurrenceRecord>) -> bool {
    forall|i: int, j: int|
        0 <= i < occs.len() && 0 <= j < occs.len() && i != j ==> occs[i].id != occs[j].id
}

/// What the resolution keeps while it runs: the pending occurrences are
/// distinct occurrences of the list, exactly the others are resolved, and
/// every resolved one follows the inheritance rule.
pub open spec fn resolution_state(
    occs: Seq<OccurrenceRecord>,
    eff: Map<ComponentOccurrenceId, bool>,
    pending: Seq<OccurrenceRecord>,
) -> bool {
    &&& pending.no_duplicates()
    &&& forall|k: int| 0 <= k < pending.len() ==> occs.contains(#[trigger] pending[k])
    &&& forall|i: int|
        0 <= i < occs.len() ==> (eff.contains_key(#[trigger] occs[i].id) <==> !pending.contains(
            occs[i],
        ))
    &&& forall|i: int|
        0 <= i < occs.len() && eff.contains_key(#[trigger] occs[i].id) ==> inherits(occs[i], eff)
}

/// Resolving the first of the remaining occurrences keeps the state.
proof fn lemma_resolve_keeps_state(
    occs: Seq<OccurrenceRecord>,
    eff: Map<ComponentOccurrenceId, bool>,
    kept: Seq<OccurrenceRecord>,
    rest: Seq<OccurrenceRecord>,
)
    requires
        occurrence_ids_distinct(occs),
        resolution_state(occs, eff, kept + rest),
        rest.len() > 0,
        resolve_one(eff, rest[0]) is Some,
    ensures
        resolution_state(occs, resolve_one(eff, rest[0])->0, kept + rest.drop_first()),
        !eff.contains_key(rest[0].id),
        occs.contains(rest[0]),
{
    let x = rest[0];
    let tail = rest.drop_first();
    let pend = kept + rest;
    let e1 = resolve_one(eff, x)->0;
    assert(pend[kept.len() as int] == x);
    assert(occs.contains(x));
    let jx = choose|j: int| 0 <= j < occs.len() && occs[j] == x;
    assert(!eff.contains_key(x.id)) by {
        assert(pend.contains(occs[jx]));
    }
        let pend1 = kept + tail;
        assert(pend1.no_duplicates()) by {
            assert forall|a: int, b: int|
                0 <= a < pend1.len() && 0 <= b < pend1.len() && a != b implies pend1[a]
                != pend1[b] by {
                let a1 = if a < kept.len() { a } else { a + 1 };
                let b1 = if b < kept.len() { b } else { b + 1 };
                assert(pend1[a] == pend[a1]);
                assert(pend1[b] == pend[b1]);
            }
        }
        assert forall|k: int| 0 <= k < pend1.len() implies occs.contains(#[trigger] pend1[k]) by {
            let k1 = if k < kept.len() { k } else { k + 1 };
            assert(pend1[k] == pend[k1]);
        }
        assert forall|i: int|
            0 <= i < occs.len() implies (e1.contains_key(#[trigger] occs[i].id) <==> !pend1.contains(
            occs[i],
        )) by {
            if occs[i] == x {
                if pend1.contains(x) {
                    let k = choose|k: int| 0 <= k < pend1.len() && pend1[k] == x;
                    let k1 = if k < kept.len() { k } else { k + 1 };
                    assert(pend[k1] == x);
                    assert(pend[kept.len() as int] == x);
                }
            } else {
                assert(occs[i].id != x.id) by {
                    assert(i != jx);
                }
                if pend1.contains(occs[i]) {
                    let k = choose|k: int| 0 <= k < pend1.len() && pend1[k] == occs[i];
                    let k1 = if k < kept.len() { k } else { k + 1 };
                    assert(pend[k1] == occs[i]);
                }
                if pend.contains(occs[i]) {
                    let k = choose|k: int| 0 <= k < pend.len() && pend[k] == occs[i];
                    if k < kept.len() {
                        assert(pend1[k] == occs[i]);
                    } else if k > kept.len() {
                        assert(pend1[k - 1] == occs[i]);
                    }
                }
            }
        }
        assert forall|i: int|
            0 <= i < occs.len() && e1.contains_key(#[trigger] occs[i].id) implies inherits(
            occs[i],
            e1,
        ) by {
            if occs[i].id == x.id {
                assert(i == jx);
            } else {
                assert(eff.contains_key(occs[i].id));
                assert(inherits(occs[i], eff));
            }
        }
    assert(pend1 =~= kept + tail);
}

proof fn lemma_round_keeps_state(
    occs: Seq<OccurrenceRecord>,
    eff: Map<ComponentOccurrenceId, bool>,
    kept: Seq<OccurrenceRecord>,
    rest: Seq<OccurrenceRecord>,
)
    requires
        occurrence_ids_distinct(occs),
        resolution_state(occs, eff, kept + rest),
    ensures
        resolution_state(
            occs,
            suppression_round(eff, rest).0,
            kept + suppression_round(eff, rest).1,
        ),
    decreases rest.len(),
{
    if rest.len() == 0 {
        assert(kept + rest =~= kept);
        assert(kept + Seq::<OccurrenceRecord>::empty() =~= kept);
    } else {
        let x = rest[0];
        let tail = rest.drop_first();
        let pend = kept + rest;
        assert(pend[kept.len() as int] == x);
        assert(occs.contains(x));
        let jx = choose|j: int| 0 <= j < occs.len() && occs[j] == x;
        assert(!eff.contains_key(x.id)) by {
            assert(pend.contains(occs[jx]));
        }
        match resolve_one(eff, x) {
            Some(e1) => {
                lemma_resolve_keeps_state(occs, eff, kept, rest);
                lemma_round_keeps_state(occs, e1, kept, tail);
            },
            None => {
                let kept1 = kept.push(x);
                assert(kept1 + tail =~= pend);
                lemma_round_keeps_state(occs, eff, kept1, tail);
                let r = suppression_round(eff, tail);
                assert(kept1 + r.1 =~= kept + (seq![x] + r.1));
            },
        }
    }
}

proof fn lemma_passes_keep_state(
    occs: Seq<OccurrenceRecord>,
    eff: Map<ComponentOccurrenceId, bool>,
    pending: Seq<OccurrenceRecord>,
    fuel: nat,
)
    requires
        occurrence_ids_distinct(occs),
        resolution_state(occs, eff, pending),
    ensures
        suppression_passes(eff, pending, fuel) matches Ok(m) ==> resolution_state(
            occs,
            m,
            Seq::empty(),
        ),
    decreases fuel,
{
    if pending.len() == 0 {
        assert(pending =~= Seq::<OccurrenceRecord>::empty());
    } else if fuel > 0 {
        assert(Seq::<OccurrenceRecord>::empty() + pending =~= pending);
        lemma_round_keeps_state(occs, eff, Seq::empty(), pending);
        let (next, rest) = suppression_round(eff, pending);
        assert(Seq::<OccurrenceRecord>::empty() + rest =~= rest);
        lemma_passes_keep_state(occs, next, rest, (fuel - 1) as nat);
    }
}

/// A suppressed occurrence suppresses its whole subtree: when suppression
/// resolves, every occurrence of a list with distinct ids is resolved, a
/// root to its own state and a child to its own state or its parent's.
pub proof fn law_suppression_is_inherited(occs: Seq<OccurrenceRecord>)
    requires
        occurrence_ids_distinct(occs),
        effective_suppression_of(occs) is Ok,
    ensures
        forall|i: int|
            0 <= i < occs.len() ==> inherits(#[trigger] occs[i], effective_suppression_of(occs)->Ok_0),
{
    assert(resolution_state(occs, Map::empty(), occs)) by {
        assert forall|a: int, b: int|
            0 <= a < occs.len() && 0 <= b < occs.len() && a != b implies occs[a] != occs[b] by {
            assert(occs[a].id != occs[b].id);
        }
        assert forall|i: int| 0 <= i < occs.len() implies occs.contains(#[trigger] occs[i]) by {
            assert(occs[i] == occs[i]);
        }
    }
    lemma_passes_keep_state(occs, Map::empty(), occs, occs.len());
    let m = effective_suppression_of(occs)->Ok_0;
    assert forall|i: int| 0 <= i < occs.len() implies inherits(#[trigger] occs[i], m) by {
        assert(!Seq::<OccurrenceRecord>::empty().contains(occs[i]));
        assert(m.contains_key(occs[i].id));
    }
}


/// Following parents from `id` through existing occurrences, a root is
/// reached within `fuel` occurrences.
pub open spec fn chain_resolves(occs: Seq<OccurrenceRecord>, id: ComponentOccurrenceId, fuel: int) -> bool
    decreases fuel,
{
    if fuel <= 0 {
        false
    } else {
        match occ_pos(occs, id, 0) {
            None => false,
            Some(k) => match occs[k].parent_id {
                None => true,
                Some(p) => chain_resolves(occs, p, fuel - 1),
            },
        }
    }
}

proof fn lemma_chain_more_fuel(occs: Seq<OccurrenceRecord>, id: ComponentOccurrenceId, f1: int, f2: int)
    requires
        chain_resolves(occs, id, f1),
        f1 <= f2,
    ensures
        chain_resolves(occs, id, f2),
    decreases f1,
{
    if let Some(k) = occ_pos(occs, id, 0) {
        if let Some(p) = occs[k].parent_id {
            lemma_chain_more_fuel(occs, p, f1 - 1, f2 - 1);
        }
    }
}

proof fn lemma_occ_pos_in_range(occs: Seq<OccurrenceRecord>, id: ComponentOccurrenceId, i: int)
    requires
        0 <= i,
    ensures
        occ_pos(occs, id, i) matches Some(k) ==> i <= k < occs.len() && occs[k].id == id,
    decreases occs.len() - i,
{
    if i < occs.len() && occs[i].id != id {
        lemma_occ_pos_in_range(occs, id, i + 1);
    }
}

proof fn lemma_occ_pos_found(occs: Seq<OccurrenceRecord>, id: ComponentOccurrenceId, i: int, j: int)
    requires
        0 <= i <= j < occs.len(),
        occs[j].id == id,
    ensures
        occ_pos(occs, id, i) matches Some(k) && i <= k <= j && occs[k].id == id,
    decreases j - i,
{
    if occs[i].id != id {
        lemma_occ_pos_found(occs, id, i + 1, j);
    }
}

proof fn lemma_pending_fits(occs: Seq<OccurrenceRecord>, pend: Seq<OccurrenceRecord>)
    requires
        pend.no_duplicates(),
        forall|k: int| 0 <= k < pend.len() ==> occs.contains(#[trigger] pend[k]),
    ensures
        pend.len() <= occs.len(),
{
    pend.unique_seq_to_set();
    assert(pend.to_set().subset_of(occs.to_set())) by {
        assert forall|x: OccurrenceRecord| pend.to_set().contains(x) implies occs.to_set().contains(x) by {
            let k = choose|k: int| 0 <= k < pend.len() && pend[k] == x;
            assert(occs.contains(pend[k]));
        }
    }
    vstd::seq_lib::seq_to_set_is_finite(occs);
    vstd::set_lib::lemma_len_subset(pend.to_set(), occs.to_set());
    occs.lemma_cardinality_of_set();
}

/// Every key of `eff` has a chain to a root within `fuel` occurrences.
spec fn keys_chained(occs: Seq<OccurrenceRecord>, eff: Map<ComponentOccurrenceId, bool>, fuel: int) -> bool {
    forall|key: ComponentOccurrenceId| #[trigger] eff.contains_key(key) ==> chain_resolves(occs, key, fuel)
}

proof fn lemma_round_chains(
    occs: Seq<OccurrenceRecord>,
    eff: Map<ComponentOccurrenceId, bool>,
    kept: Seq<OccurrenceRecord>,
    rest: Seq<OccurrenceRecord>,
)
    requires
        occurrence_ids_distinct(occs),
        resolution_state(occs, eff, kept + rest),
        keys_chained(occs, eff, occs.len() - (kept + rest).len()),
    ensures
        keys_chained(
            occs,
            suppression_round(eff, rest).0,
            occs.len() - (kept + suppression_round(eff, rest).1).len(),
        ),
    decreases rest.len(),
{
    if rest.len() == 0 {
        assert(kept + rest =~= kept);
        assert(kept + Seq::<OccurrenceRecord>::empty() =~= kept);
    } else {
        let x = rest[0];
        let tail = rest.drop_first();
        let fuel = occs.len() - (kept + rest).len();
        match resolve_one(eff, x) {
            Some(e1) => {
                lemma_resolve_keeps_state(occs, eff, kept, rest);
                lemma_pending_fits(occs, kept + rest);
                let jx = choose|j: int| 0 <= j < occs.len() && occs[j] == x;
                lemma_occ_pos_found(occs, x.id, 0, jx);
                assert forall|key: ComponentOccurrenceId| #[trigger] e1.contains_key(key) implies chain_resolves(occs, key, fuel + 1) by {
                    if key == x.id {
                        let k = occ_pos(occs, x.id, 0)->Some_0;
                        assert(occs[k] == x);
                        if let Some(p) = x.parent_id {
                            assert(eff.contains_key(p));
                        }
                    } else {
                        assert(eff.contains_key(key));
                        lemma_chain_more_fuel(occs, key, fuel, fuel + 1);
                    }
                }
                assert((kept + tail).len() == (kept + rest).len() - 1);
                lemma_round_chains(occs, e1, kept, tail);
            },
            None => {
                let kept1 = kept.push(x);
                assert(kept1 + tail =~= kept + rest);
                lemma_round_chains(occs, eff, kept1, tail);
                let r = suppression_round(eff, tail);
                assert(kept1 + r.1 =~= kept + (seq![x] + r.1));
            },
        }
    }
}

proof fn lemma_passes_chain(
    occs: Seq<OccurrenceRecord>,
    eff: Map<ComponentOccurrenceId, bool>,
    pending: Seq<OccurrenceRecord>,
    fuel: nat,
)
    requires
        occurrence_ids_distinct(occs),
        resolution_state(occs, eff, pending),
        keys_chained(occs, eff, occs.len() - pending.len()),
    ensures
        suppression_passes(eff, pending, fuel) matches Ok(m) ==> keys_chained(occs, m, occs.len() as int),
    decreases fuel,
{
    if pending.len() == 0 {
    } else if fuel > 0 {
        assert(Seq::<OccurrenceRecord>::empty() + pending =~= pending);
        lemma_round_keeps_state(occs, eff, Seq::empty(), pending);
        lemma_round_chains(occs, eff, Seq::empty(), pending);
        let (next, rest) = suppression_round(eff, pending);
        assert(Seq::<OccurrenceRecord>::empty() + rest =~= rest);
        lemma_passes_chain(occs, next, rest, (fuel - 1) as nat);
    }
}

/// When suppression resolves, every occurrence's parent chain runs through
/// existing occurrences to a root within as many steps as there are
/// occurrences: a missing parent or a cycle anywhere makes it fail.
pub proof fn law_resolved_suppression_has_rooted_chains(occs: Seq<OccurrenceRecord>)
    requires
        occurrence_ids_distinct(occs),
        effective_suppression_of(occs) is Ok,
    ensures
        forall|i: int| 0 <= i < occs.len() ==> chain_resolves(occs, #[trigger] occs[i].id, occs.len() as int),
{
    assert(resolution_state(occs, Map::empty(), occs)) by {
        assert forall|a: int, b: int|
            0 <= a < occs.len() && 0 <= b < occs.len() && a != b implies occs[a] != occs[b] by {
            assert(occs[a].id != occs[b].id);
        }
        assert forall|i: int| 0 <= i < occs.len() implies occs.contains(#[trigger] occs[i]) by {
            assert(occs[i] == occs[i]);
        }
    }
    lemma_passes_keep_state(occs, Map::empty(), occs, occs.len());
    lemma_passes_chain(occs, Map::empty(), occs, occs.len());
    let m = effective_suppression_of(occs)->Ok_0;
    assert forall|i: int| 0 <= i < occs.len() implies chain_resolves(occs, #[trigger] occs[i].id, occs.len() as int) by {
        assert(!Seq::<OccurrenceRecord>::empty().contains(occs[i]));
        assert(m.contains_key(occs[i].id));
    }
}

proof fn lemma_round_shrinks(eff: Map<ComponentOccurrenceId, bool>, pend: Seq<OccurrenceRecord>, j: int)
    requires
        0 <= j < pend.len(),
        resolve_one(eff, pend[j]) is Some,
    ensures
        suppression_round(eff, pend).1.len() < pend.len(),
    decreases pend.len(),
{
    lemma_round_not_longer(eff, pend);
    if resolve_one(eff, pend[0]) is Some {
        lemma_round_not_longer(resolve_one(eff, pend[0])->0, pend.drop_first());
    } else {
        assert(j > 0);
        assert(pend.drop_first()[j - 1] == pend[j]);
        lemma_round_shrinks(eff, pend.drop_first(), j - 1);
    }
}

proof fn lemma_round_not_longer(eff: Map<ComponentOccurrenceId, bool>, pend: Seq<OccurrenceRecord>)
    ensures
        suppression_round(eff, pend).1.len() <= pend.len(),
    decreases pend.len(),
{
    if pend.len() > 0 {
        match resolve_one(eff, pend[0]) {
            Some(next) => lemma_round_not_longer(next, pend.drop_first()),
            None => lemma_round_not_longer(eff, pend.drop_first()),
        }
    }
}

/// No pending occurrence can be resolved: each has a parent not yet resolved.
spec fn stuck(eff: Map<ComponentOccurrenceId, bool>, pending: Seq<OccurrenceRecord>) -> bool {
    forall|k: int| 0 <= k < pending.len() ==> ((#[trigger] pending[k]).parent_id matches Some(p) && !eff.contains_key(p))
}

proof fn lemma_stuck_chain_fails(
    occs: Seq<OccurrenceRecord>,
    eff: Map<ComponentOccurrenceId, bool>,
    pending: Seq<OccurrenceRecord>,
    x: OccurrenceRecord,
    fuel: int,
)
    requires
        occurrence_ids_distinct(occs),
        resolution_state(occs, eff, pending),
        stuck(eff, pending),
        pending.contains(x),
    ensures
        !chain_resolves(occs, x.id, fuel),
    decreases fuel,
{
    if fuel > 0 {
        let kx = choose|k: int| 0 <= k < pending.len() && pending[k] == x;
        assert(occs.contains(pending[kx]));
        let jx = choose|j: int| 0 <= j < occs.len() && occs[j] == x;
        lemma_occ_pos_found(occs, x.id, 0, jx);
        let k = occ_pos(occs, x.id, 0)->Some_0;
        assert(occs[k].id == occs[jx].id);
        assert(k == jx);
        let p = x.parent_id->Some_0;
        assert(!eff.contains_key(p));
        lemma_occ_pos_in_range(occs, p, 0);
        if let Some(k2) = occ_pos(occs, p, 0) {
            assert(!eff.contains_key(occs[k2].id));
            assert(pending.contains(occs[k2]));
            lemma_stuck_chain_fails(occs, eff, pending, occs[k2], fuel - 1);
        }
    }
}

proof fn lemma_passes_succeed(
    occs: Seq<OccurrenceRecord>,
    eff: Map<ComponentOccurrenceId, bool>,
    pending: Seq<OccurrenceRecord>,
    fuel: nat,
)
    requires
        occurrence_ids_distinct(occs),
        resolution_state(occs, eff, pending),
        pending.len() <= fuel,
        forall|i: int| 0 <= i < occs.len() ==> chain_resolves(occs, #[trigger] occs[i].id, occs.len() as int),
    ensures
        suppression_passes(eff, pending, fuel) is Ok,
    decreases fuel,
{
    if pending.len() > 0 {
        if stuck(eff, pending) {
            assert(pending.contains(pending[0]));
            assert(occs.contains(pending[0]));
            let j = choose|j: int| 0 <= j < occs.len() && occs[j] == pending[0];
            assert(chain_resolves(occs, occs[j].id, occs.len() as int));
            lemma_stuck_chain_fails(occs, eff, pending, pending[0], occs.len() as int);
        } else {
            let k = choose|k: int| 0 <= k < pending.len() && !((#[trigger] pending[k]).parent_id matches Some(p) && !eff.contains_key(p));
            lemma_round_shrinks(eff, pending, k);
            assert(Seq::<OccurrenceRecord>::empty() + pending =~= pending);
            lemma_round_keeps_state(occs, eff, Seq::empty(), pending);
            let (next, rest) = suppression_round(eff, pending);
            assert(Seq::<OccurrenceRecord>::empty() + rest =~= rest);
            lemma_passes_succeed(occs, next, rest, (fuel - 1) as nat);
        }
    }
}

/// For occurrences with distinct ids, suppression resolves exactly when every
/// occurrence's parent chain runs through existing occurrences to a root; it
/// fails exactly when some chain meets a missing parent or a cycle.
pub proof fn law_suppression_fails_exactly_on_broken_chains(occs: Seq<OccurrenceRecord>)
    requires
        occurrence_ids_distinct(occs),
    ensures
        effective_suppression_of(occs) is Ok <==> forall|i: int|
            0 <= i < occs.len() ==> chain_resolves(occs, #[trigger] occs[i].id, occs.len() as int),
{
    if effective_suppression_of(occs) is Ok {
        law_resolved_suppression_has_rooted_chains(occs);
    }
    if forall|i: int| 0 <= i < occs.len() ==> chain_resolves(occs, #[trigger] occs[i].id, occs.len() as int) {
        assert(resolution_state(occs, Map::empty(), occs)) by {
            assert forall|a: int, b: int|
                0 <= a < occs.len() && 0 <= b < occs.len() && a != b implies occs[a] != occs[b] by {
                assert(occs[a].id != occs[b].id);
            }
            assert forall|i: int| 0 <= i < occs.len() implies occs.contains(#[trigger] occs[i]) by {
                assert(occs[i] == occs[i]);
            }
        }
        lemma_passes_succeed(occs, Map::empty(), occs, occs.len());
    }
}

impl AssemblyRecord {
    /// The first occurrence with id `id`.
    pub fn occurrence(&self, id: ComponentOccurrenceId) -> (r: Option<&OccurrenceRecord>)
        ensures
            match r {
                Some(o) => exists|i: int|
                    0 <= i < self.occurrences@.len() && self.occurrences@[i].id == id && o
                        == &self.occurrences@[i] && forall|j: int|
                        0 <= j < i ==> #[trigger] self.occurrences@[j].id != id,
                None => forall|i: int|
                    0 <= i < self.occurrences@.len() ==> #[trigger] self.occurrences@[i].id != id,
            },
    {
        let mut i: usize = 0;
        while i < self.occurrences.len()
            invariant
                i <= self.occurrences@.len(),
                forall|j: int| 0 <= j < i ==> #[trigger] self.occurrences@[j].id != id,
            decreases self.occurrences@.len() - i,
        {
            if self.occurrences[i].id == id {
                return Some(&self.occurrences[i]);
            }
            i += 1;
        }
        None
    }

    /// The first definition with id `id`.
    pub fn definition(&self, id: ComponentDefinitionId) -> (r: Option<&ComponentDefinition>)
        ensures
            match r {
                Some(d) => exists|i: int|
                    0 <= i < self.definitions@.len() && self.definitions@[i].id == id && d
                        == &self.definitions@[i] && forall|j: int|
                        0 <= j < i ==> #[trigger] self.definitions@[j].id != id,
                None => forall|i: int|
                    0 <= i < self.definitions@.len() ==> #[trigger] self.definitions@[i].id != id,
            },
    {
        let mut i: usize = 0;
        while i < self.definitions.len()
            invariant
                i <= self.definitions@.len(),
                forall|j: int| 0 <= j < i ==> #[trigger] self.definitions@[j].id != id,
            decreases self.definitions@.len() - i,
        {
            if self.definitions[i].id == id {
                return Some(&self.definitions[i]);
            }
            i += 1;
        }
        None
    }

    /// The first mate with id `id`.
    pub fn mate(&self, id: AssemblyMateId) -> (r: Option<&MateRecord>)
        ensures
            match r {
                Some(m) => exists|i: int|
                    0 <= i < self.mates@.len() && self.mates@[i].id == id && m == &self.mates@[i]
                        && forall|j: int| 0 <= j < i ==> #[trigger] self.mates@[j].id != id,
                None => forall|i: int| 0 <= i < self.mates@.len() ==> #[trigger] self.mates@[i].id != id,
            },
    {
        let mut i: usize = 0;
        while i < self.mates.len()
            invariant
                i <= self.mates@.len(),
                forall|j: int| 0 <= j < i ==> #[trigger] self.mates@[j].id != id,
            decreases self.mates@.len() - i,
        {
            if self.mates[i].id == id {
                return Some(&self.mates[i]);
            }
            i += 1;
        }
        None
    }

    /// The first mate that drives occurrence `child`.
    pub fn mate_for_child(&self, child: ComponentOccurrenceId) -> (r: Option<&MateRecord>)
        ensures
            match r {
                Some(m) => exists|i: int|
                    0 <= i < self.mates@.len() && self.mates@[i].child_occurrence_id == child && m
                        == &self.mates@[i] && forall|j: int|
                        0 <= j < i ==> #[trigger] self.mates@[j].child_occurrence_id != child,
                None => forall|i: int|
                    0 <= i < self.mates@.len() ==> #[trigger] self.mates@[i].child_occurrence_id
                        != child,
            },
    {
        let mut i: usize = 0;
        while i < self.mates.len()
            invariant
                i <= self.mates@.len(),
                forall|j: int| 0 <= j < i ==> #[trigger] self.mates@[j].child_occurrence_id != child,
            decreases self.mates@.len() - i,
        {
            if self.mates[i].child_occurrence_id == child {
                return Some(&self.mates[i]);
            }
            i += 1;
        }
        None
    }

    /// The occurrences whose parent is `parent` (`None`: the roots), in
    /// order.
    fn with_parent(&self, parent: Option<ComponentOccurrenceId>) -> (r: Vec<&OccurrenceRecord>)
        ensures
            r@.map_values(|o: &OccurrenceRecord| *o) == self.occurrences@.filter(
                |o: OccurrenceRecord| o.parent_id == parent,
            ),
    {
        let mut r: Vec<&OccurrenceRecord> = Vec::new();
        let mut i: usize = 0;
        proof {
            assert(self.occurrences@.take(0) =~= Seq::<OccurrenceRecord>::empty());
        }
        while i < self.occurrences.len()
            invariant
                i <= self.occurrences@.len(),
                r@.map_values(|o: &OccurrenceRecord| *o) == self.occurrences@.take(i as int).filter(
                    |o: OccurrenceRecord| o.parent_id == parent,
                ),
            decreases self.occurrences@.len() - i,
        {
            proof {
                let t = self.occurrences@.take(i + 1);
                assert(t.drop_last() =~= self.occurrences@.take(i as int));
                assert(t.last() == self.occurrences@[i as int]);
                reveal(Seq::filter);
            }
            let matches = match (self.occurrences[i].parent_id, parent) {
                (Some(a), Some(b)) => a == b,
                (None, None) => true,
                _ => false,
            };
            if matches {
                r.push(&self.occurrences[i]);
            }
            proof {
                assert(r@.map_values(|o: &OccurrenceRecord| *o) =~= self.occurrences@.take(
                    i + 1,
                ).filter(|o: OccurrenceRecord| o.parent_id == parent));
            }
            i += 1;
        }
        proof {
            assert(self.occurrences@.take(self.occurrences@.len() as int) =~= self.occurrences@);
        }
        r
    }

    /// The occurrences without a parent, in order.
    pub fn roots(&self) -> (r: Vec<&OccurrenceRecord>)
        ensures
            r@.map_values(|o: &OccurrenceRecord| *o) == self.occurrences@.filter(
                |o: OccurrenceRecord| o.parent_id is None,
            ),
    {
        let r = self.with_parent(None);
        proof {
            assert(self.occurrences@.filter(|o: OccurrenceRecord| o.parent_id == None::<u64>)
                =~= self.occurrences@.filter(|o: OccurrenceRecord| o.parent_id is None)) by {
                assert((|o: OccurrenceRecord| o.parent_id == None::<u64>) =~= (|o: OccurrenceRecord|
                    o.parent_id is None));
            }
        }
        r
    }

    /// The occurrences whose parent is `parent`, in order.
    pub fn children(&self, parent: ComponentOccurrenceId) -> (r: Vec<&OccurrenceRecord>)
        ensures
            r@.map_values(|o: &OccurrenceRecord| *o) == self.occurrences@.filter(
                |o: OccurrenceRecord| o.parent_id == Some(parent),
            ),
    {
        self.with_parent(Some(parent))
    }
}


proof fn lemma_defs_clear(defs: Seq<ComponentDefinition>, i: int, k: int)
    requires
        defs_fault_from(defs, i) is None,
        0 <= i <= k < defs.len(),
    ensures
        def_fault(defs, k) is None,
    decreases k - i,
{
    if i < k {
        lemma_defs_clear(defs, i + 1, k);
    }
}

proof fn lemma_occs_clear(defs: Seq<ComponentDefinition>, occs: Seq<OccurrenceRecord>, avail: Seq<FeatureId>, i: int, k: int)
    requires
        occs_fault_from(defs, occs, avail, i) is None,
        0 <= i <= k < occs.len(),
    ensures
        occ_fault(defs, occs, avail, k) is None,
    decreases k - i,
{
    if i < k {
        lemma_occs_clear(defs, occs, avail, i + 1, k);
    }
}

proof fn lemma_features_clear(o: OccurrenceRecord, avail: Seq<FeatureId>, j: int, k: int)
    requires
        features_fault_from(o, avail, j) is None,
        0 <= j <= k < o.feature_ids@.len(),
    ensures
        feature_fault(o, avail, k) is None,
    decreases k - j,
{
    if j < k {
        lemma_features_clear(o, avail, j + 1, k);
    }
}

proof fn lemma_links_clear(defs: Seq<ComponentDefinition>, occs: Seq<OccurrenceRecord>, i: int, k: int)
    requires
        links_fault_from(defs, occs, i) is None,
        0 <= i <= k < occs.len(),
    ensures
        link_fault(defs, occs, k) is None,
    decreases k - i,
{
    if i < k {
        lemma_links_clear(defs, occs, i + 1, k);
    }
}

proof fn lemma_ownership_clear(occs: Seq<OccurrenceRecord>, i: int, j: int, k: int)
    requires
        ownership_fault_from(occs, i, j) is None,
        0 <= j <= k < occs[i].feature_ids@.len(),
    ensures
        owner_before(occs, i, occs[i].feature_ids@[k], 0) is None,
    decreases k - j,
{
    if j < k {
        lemma_ownership_clear(occs, i, j + 1, k);
    }
}

proof fn lemma_unused_clear(defs: Seq<ComponentDefinition>, occs: Seq<OccurrenceRecord>, i: int, k: int)
    requires
        unused_from(defs, occs, i) is None,
        0 <= i <= k < defs.len(),
    ensures
        exists|q: int| 0 <= q < occs.len() && #[trigger] occs[q].definition_id == defs[k].id,
    decreases k - i,
{
    if i < k {
        lemma_unused_clear(defs, occs, i + 1, k);
    }
}

proof fn lemma_cycles_clear(occs: Seq<OccurrenceRecord>, i: int, k: int)
    requires
        cycles_from(occs, i) is None,
        0 <= i <= k < occs.len(),
    ensures
        reaches_root(occs, occs[k].id, occs.len()),
    decreases k - i,
{
    if i < k {
        lemma_cycles_clear(occs, i + 1, k);
    }
}

proof fn lemma_mates_clear(occs: Seq<OccurrenceRecord>, mates: Seq<MateRecord>, i: int, k: int)
    requires
        mates_fault_from(occs, mates, i) is None,
        0 <= i <= k < mates.len(),
    ensures
        mate_fault(occs, mates, k) is None,
    decreases k - i,
{
    if i < k {
        lemma_mates_clear(occs, mates, i + 1, k);
    }
}

/// An assembly that passes `validate` clears each of its checks in turn:
/// a non-zero id, its definitions, its occurrences, their links, a root, the
/// use of every definition, acyclic parent chains, the mate limit, and its
/// mates.
pub proof fn law_passing_assembly_clears_each_check(a: AssemblyRecord, avail: Seq<FeatureId>)
    requires
        assembly_fault(a, avail) is None,
    ensures
        a.id != 0,
        defs_fault_from(a.definitions@, 0) is None,
        occs_fault_from(a.definitions@, a.occurrences@, avail, 0) is None,
        links_fault_from(a.definitions@, a.occurrences@, 0) is None,
        exists|k: int| 0 <= k < a.occurrences@.len() && #[trigger] a.occurrences@[k].parent_id is None,
        unused_from(a.definitions@, a.occurrences@, 0) is None,
        cycles_from(a.occurrences@, 0) is None,
        a.mates@.len() <= MAX_ASSEMBLY_MATES,
        mates_fault_from(a.occurrences@, a.mates@, 0) is None,
{
}

/// Definitions that pass their checks have non-zero, unique ids.
pub proof fn law_checked_definitions_have_unique_ids(defs: Seq<ComponentDefinition>)
    requires
        defs_fault_from(defs, 0) is None,
    ensures
        forall|i: int| 0 <= i < defs.len() ==> (#[trigger] defs[i]).id != 0,
        forall|i: int, j: int| 0 <= j < i < defs.len() ==> (#[trigger] defs[j]).id != (#[trigger] defs[i]).id,
{
    assert forall|i: int| 0 <= i < defs.len() implies (#[trigger] defs[i]).id != 0 by {
        lemma_defs_clear(defs, 0, i);
    }
    assert forall|i: int, j: int| 0 <= j < i < defs.len() implies (#[trigger] defs[j]).id != (#[trigger] defs[i]).id by {
        lemma_defs_clear(defs, 0, i);
    }
}

/// Occurrences that pass their checks have non-zero, unique ids, existing
/// definitions, existing parents of assembly definitions, and parent chains
/// that reach a root.
pub proof fn law_checked_occurrences_are_linked(defs: Seq<ComponentDefinition>, occs: Seq<OccurrenceRecord>, avail: Seq<FeatureId>)
    requires
        occs_fault_from(defs, occs, avail, 0) is None,
        links_fault_from(defs, occs, 0) is None,
        cycles_from(occs, 0) is None,
    ensures
        forall|i: int| 0 <= i < occs.len() ==> {
            let o = #[trigger] occs[i];
            &&& o.id != 0
            &&& has_definition(defs, o.definition_id)
            &&& reaches_root(occs, o.id, occs.len())
            &&& (o.parent_id matches Some(p) ==> (occ_pos(occs, p, 0) matches Some(k) && (def_pos(
                defs,
                occs[k].definition_id,
                0,
            ) matches Some(d) ==> defs[d].kind == ComponentKind::Assembly)))
        },
        forall|i: int, j: int| 0 <= j < i < occs.len() ==> (#[trigger] occs[j]).id != (#[trigger] occs[i]).id,
{
    assert forall|i: int| 0 <= i < occs.len() implies {
        let o = #[trigger] occs[i];
        &&& o.id != 0
        &&& has_definition(defs, o.definition_id)
        &&& reaches_root(occs, o.id, occs.len())
        &&& (o.parent_id matches Some(p) ==> (occ_pos(occs, p, 0) matches Some(k) && (def_pos(
            defs,
            occs[k].definition_id,
            0,
        ) matches Some(d) ==> defs[d].kind == ComponentKind::Assembly)))
    } by {
        lemma_occs_clear(defs, occs, avail, 0, i);
        lemma_links_clear(defs, occs, 0, i);
        lemma_cycles_clear(occs, 0, i);
    }
    assert forall|i: int, j: int| 0 <= j < i < occs.len() implies (#[trigger] occs[j]).id != (#[trigger] occs[i]).id by {
        lemma_occs_clear(defs, occs, avail, 0, i);
    }
}

/// The features of occurrences that pass their checks are non-zero, available,
/// listed once, and owned by no earlier occurrence.
pub proof fn law_checked_features_are_owned_once(defs: Seq<ComponentDefinition>, occs: Seq<OccurrenceRecord>, avail: Seq<FeatureId>)
    requires
        occs_fault_from(defs, occs, avail, 0) is None,
        links_fault_from(defs, occs, 0) is None,
    ensures
        forall|i: int, j: int| 0 <= i < occs.len() && 0 <= j < occs[i].feature_ids@.len() ==> {
            let f = #[trigger] occs[i].feature_ids@[j];
            &&& f != 0
            &&& avail.contains(f)
            &&& forall|q: int| 0 <= q < j ==> #[trigger] occs[i].feature_ids@[q] != f
            &&& owner_before(occs, i, f, 0) is None
        },
{
    assert forall|i: int, j: int| 0 <= i < occs.len() && 0 <= j < occs[i].feature_ids@.len() implies {
        let f = #[trigger] occs[i].feature_ids@[j];
        &&& f != 0
        &&& avail.contains(f)
        &&& forall|q: int| 0 <= q < j ==> #[trigger] occs[i].feature_ids@[q] != f
        &&& owner_before(occs, i, f, 0) is None
    } by {
        lemma_occs_clear(defs, occs, avail, 0, i);
        if occs[i].feature_ids@.len() <= MAX_OCCURRENCE_FEATURES {
            lemma_features_clear(occs[i], avail, 0, j);
        }
        lemma_links_clear(defs, occs, 0, i);
        lemma_ownership_clear(occs, i, 0, j);
    }
}

/// When no definition is reported unused, each is used by an occurrence.
pub proof fn law_checked_definitions_are_used(defs: Seq<ComponentDefinition>, occs: Seq<OccurrenceRecord>)
    requires
        unused_from(defs, occs, 0) is None,
    ensures
        forall|i: int| 0 <= i < defs.len() ==> exists|q: int| 0 <= q < occs.len() && #[trigger] occs[q].definition_id == (#[trigger] defs[i]).id,
{
    assert forall|i: int| 0 <= i < defs.len() implies exists|q: int| 0 <= q < occs.len() && #[trigger] occs[q].definition_id == (#[trigger] defs[i]).id by {
        lemma_unused_clear(defs, occs, 0, i);
    }
}

/// Mates that pass their checks have non-zero, unique ids and drive an existing
/// child that is not a root from its real parent, no child twice, with the
/// host's pose check passed.
pub proof fn law_checked_mates_drive_children_once(occs: Seq<OccurrenceRecord>, mates: Seq<MateRecord>)
    requires
        mates_fault_from(occs, mates, 0) is None,
    ensures
        forall|i: int| 0 <= i < mates.len() ==> {
            let m = #[trigger] mates[i];
            &&& m.id != 0
            &&& forall|j: int| 0 <= j < i ==> #[trigger] mates[j].id != m.id
            &&& occ_pos(occs, m.child_occurrence_id, 0) matches Some(c) && occs[c].parent_id == Some(m.parent_occurrence_id)
                && driver_before(mates, i, occs[c].id, 0) is None
            &&& m.pose_matches
        },
{
    assert forall|i: int| 0 <= i < mates.len() implies {
        let m = #[trigger] mates[i];
        &&& m.id != 0
        &&& forall|j: int| 0 <= j < i ==> #[trigger] mates[j].id != m.id
        &&& occ_pos(occs, m.child_occurrence_id, 0) matches Some(c) && occs[c].parent_id == Some(m.parent_occurrence_id)
            && driver_before(mates, i, occs[c].id, 0) is None
        &&& m.pose_matches
    } by {
        lemma_mates_clear(occs, mates, 0, i);
    }
}

/// Every definition is used by some occurrence.
#[verifier::opaque]
pub open spec fn every_definition_used(defs: Seq<ComponentDefinition>, occs: Seq<OccurrenceRecord>) -> bool {
    forall|i: int|
        0 <= i < defs.len() ==> exists|q: int| 0 <= q < occs.len() && #[trigger] occs[q].definition_id == (#[trigger] defs[i]).id
}

/// The definitions have non-zero, unique ids.
#[verifier::opaque]
pub open spec fn definition_ids_distinct(defs: Seq<ComponentDefinition>) -> bool {
    &&& forall|i: int| 0 <= i < defs.len() ==> (#[trigger] defs[i]).id != 0
    &&& forall|i: int, j: int| 0 <= j < i < defs.len() ==> (#[trigger] defs[j]).id != (#[trigger] defs[i]).id
}

/// The occurrences have non-zero, unique ids and existing definitions; their
/// parents exist and are assemblies, and their parent chains reach a root.
#[verifier::opaque]
pub open spec fn occurrences_linked(defs: Seq<ComponentDefinition>, occs: Seq<OccurrenceRecord>) -> bool {
    &&& forall|i: int| 0 <= i < occs.len() ==> {
        let o = #[trigger] occs[i];
        &&& o.id != 0
        &&& has_definition(defs, o.definition_id)
        &&& reaches_root(occs, o.id, occs.len())
        &&& (o.parent_id matches Some(p) ==> (occ_pos(occs, p, 0) matches Some(k) && (def_pos(
            defs,
            occs[k].definition_id,
            0,
        ) matches Some(d) ==> defs[d].kind == ComponentKind::Assembly)))
    }
    &&& forall|i: int, j: int| 0 <= j < i < occs.len() ==> (#[trigger] occs[j]).id != (#[trigger] occs[i]).id
}

/// The occurrences' features are non-zero, available, listed once and owned
/// by no earlier occurrence.
#[verifier::opaque]
pub open spec fn features_owned_once(occs: Seq<OccurrenceRecord>, avail: Seq<FeatureId>) -> bool {
    forall|i: int, j: int| 0 <= i < occs.len() && 0 <= j < occs[i].feature_ids@.len() ==> {
        let f = #[trigger] occs[i].feature_ids@[j];
        &&& f != 0
        &&& avail.contains(f)
        &&& forall|q: int| 0 <= q < j ==> #[trigger] occs[i].feature_ids@[q] != f
        &&& owner_before(occs, i, f, 0) is None
    }
}

/// The mates have non-zero, unique ids and each drives an existing non-root
/// child from its real parent, no child twice, with the host's pose check
/// passed.
#[verifier::opaque]
pub open spec fn mates_drive_children_once(occs: Seq<OccurrenceRecord>, mates: Seq<MateRecord>) -> bool {
    forall|i: int| 0 <= i < mates.len() ==> {
        let m = #[trigger] mates[i];
        &&& m.id != 0
        &&& forall|j: int| 0 <= j < i ==> #[trigger] mates[j].id != m.id
        &&& occ_pos(occs, m.child_occurrence_id, 0) matches Some(c) && occs[c].parent_id == Some(m.parent_occurrence_id)
            && driver_before(mates, i, occs[c].id, 0) is None
        &&& m.pose_matches
    }
}

/// What the checks of an assembly's parts give once each has passed.
proof fn lemma_cleared_parts(
    defs: Seq<ComponentDefinition>,
    occs: Seq<OccurrenceRecord>,
    mates: Seq<MateRecord>,
    avail: Seq<FeatureId>,
)
    requires
        defs_fault_from(defs, 0) is None,
        occs_fault_from(defs, occs, avail, 0) is None,
        links_fault_from(defs, occs, 0) is None,
        unused_from(defs, occs, 0) is None,
        cycles_from(occs, 0) is None,
        mates_fault_from(occs, mates, 0) is None,
    ensures
        definition_ids_distinct(defs),
        every_definition_used(defs, occs),
        occurrences_linked(defs, occs),
        features_owned_once(occs, avail),
        mates_drive_children_once(occs, mates),
{
    assert(definition_ids_distinct(defs)) by {
        reveal(definition_ids_distinct);
        law_checked_definitions_have_unique_ids(defs);
    }
    assert(every_definition_used(defs, occs)) by {
        reveal(every_definition_used);
        law_checked_definitions_are_used(defs, occs);
    }
    assert(occurrences_linked(defs, occs)) by {
        reveal(occurrences_linked);
        law_checked_occurrences_are_linked(defs, occs, avail);
    }
    assert(features_owned_once(occs, avail)) by {
        reveal(features_owned_once);
        law_checked_features_are_owned_once(defs, occs, avail);
    }
    assert(mates_drive_children_once(occs, mates)) by {
        reveal(mates_drive_children_once);
        law_checked_mates_drive_children_once(occs, mates);
    }
}

/// An assembly that passes `validate` has a non-zero id, a root occurrence
/// and at most the mate limit; definitions with non-zero, unique ids, each
/// used; linked occurrences; features owned once; and mates that drive their
/// children once.
pub proof fn law_valid_assembly_consequences(a: AssemblyRecord, avail: Seq<FeatureId>)
    requires
        assembly_fault(a, avail) is None,
    ensures
        a.id != 0,
        exists|k: int| 0 <= k < a.occurrences@.len() && #[trigger] a.occurrences@[k].parent_id is None,
        a.mates@.len() <= MAX_ASSEMBLY_MATES,
        definition_ids_distinct(a.definitions@),
        every_definition_used(a.definitions@, a.occurrences@),
        occurrences_linked(a.definitions@, a.occurrences@),
        features_owned_once(a.occurrences@, avail),
        mates_drive_children_once(a.occurrences@, a.mates@),
{
    law_passing_assembly_clears_each_check(a, avail);
    lemma_cleared_parts(a.definitions@, a.occurrences@, a.mates@, avail);
}

} // verus!
