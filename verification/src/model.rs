//! A parametric model: its features and assemblies as its checks read them,
//! and the check-and-repair pass a model goes through when it is saved or
//! loaded. What only floating-point geometry can decide (a primitive's
//! dimensions, a placement, a colour, a material's density, whether a
//! feature sits where its occurrence puts it) reaches the model as facts
//! computed by the host.

use std::collections::BTreeMap;
use vstd::prelude::*;

use crate::assembly::{
    assembly_fault, effective_suppression_of, entries_map, keys_sorted, lemma_entries_value,
    AssemblyError, AssemblyFeatureInstance, AssemblyId, AssemblyRecord, ComponentOccurrenceId,
    OccurrenceRecord,
};
use crate::feature::{
    copy_material, copy_node, lemma_nodes_alike_refl, material_view, node_alike, nodes_alike, normalized, normalized_name, same_link,
    DocumentError, DocumentFault, FeatureId, FeatureKind, FeatureLink, FeatureNode,
    MAX_FEATURE_NAME_CHARS, SketchPlane,
};
use crate::text::{trim_range, trimmed};
use crate::graph::{graph_of, graph_problem, schedule, unplaced, FeatureGraph};
use crate::text::{decimal, push_decimal, push_str};

verus! {

broadcast use vstd::std_specs::btree::group_btree_axioms;

/// What the host's floating-point checks report about one feature.
pub struct FeatureFacts {
    /// The first fault of the feature's own definition: its primitive's
    /// dimensions and profiles, its translation and rotation, a sketch's
    /// in-plane rotation, and its colour. (A boolean's operands and a
    /// sketch's plane are checked by the model itself, before this.)
    pub definition_fault: Option<DocumentError>,
    /// Whether the feature has a material assigned.
    pub has_material: bool,
    /// What the material's own checks report, when they fail.
    pub material_fault: Option<DocumentError>,
}

/// What the host's floating-point placement checks report about one assembly.
pub struct AssemblyFacts {
    /// What resolving the occurrences' world placements reports, when it fails.
    pub hierarchy_fault: Option<AssemblyError>,
    /// The (occurrence, feature) pairs whose feature placement differs from
    /// the occurrence's world placement.
    pub mismatches: Vec<(ComponentOccurrenceId, FeatureId)>,
}

/// The host's facts about a model: by position, one entry per feature and
/// one per assembly; a feature or assembly without an entry has no fault.
pub struct ModelFacts {
    pub features: Vec<FeatureFacts>,
    pub assemblies: Vec<AssemblyFacts>,
}

/// A parametric model: its name, its features in definition order, its
/// assemblies, and the ids it hands out next.
pub struct CadDocument {
    pub name: String,
    pub features: Vec<FeatureNode>,
    pub assemblies: Vec<AssemblyRecord>,
    pub next_id: FeatureId,
    pub next_assembly_id: AssemblyId,
}

pub open spec fn fault_of(e: Option<DocumentError>) -> Option<DocumentFault> {
    match e {
        Some(x) => Some(x@),
        None => None,
    }
}

/// The definition fault the host reported for feature `i`.
pub open spec fn definition_fault_at(facts: Seq<FeatureFacts>, i: int) -> Option<DocumentFault> {
    if 0 <= i < facts.len() {
        fault_of(facts[i].definition_fault)
    } else {
        None
    }
}

pub open spec fn has_material_at(facts: Seq<FeatureFacts>, i: int) -> bool {
    0 <= i < facts.len() && facts[i].has_material
}

pub open spec fn material_fault_at(facts: Seq<FeatureFacts>, i: int) -> Option<DocumentFault> {
    if 0 <= i < facts.len() {
        fault_of(facts[i].material_fault)
    } else {
        None
    }
}

pub open spec fn reference_material_message(id: FeatureId) -> Seq<char> {
    "feature "@ + decimal(id as nat) + " cannot assign material to reference geometry"@
}

/// What the definition checks that need no geometry report: a boolean's
/// operands must be two distinct, non-zero ids, and a sketch attached to a
/// datum or face must name a non-zero feature.
pub open spec fn link_problem(link: FeatureLink) -> Option<DocumentFault> {
    match link {
        FeatureLink::Boolean { left, right, .. } => if left == right || left == 0 || right == 0 {
            Some(
                DocumentFault::InvalidParameter(
                    "boolean operands must be two distinct, non-zero feature ids"@,
                ),
            )
        } else {
            None
        },
        FeatureLink::Sketch { plane } => if plane.dependency() == Some(0u64) {
            Some(
                DocumentFault::InvalidParameter(
                    "datum-attached sketches must reference a non-zero datum feature id"@,
                ),
            )
        } else {
            None
        },
        _ => None,
    }
}

/// What the check of feature `i` reports: a zero or repeated id, then its
/// definition (the model's own checks, then the host's), then a material on
/// reference geometry, then the material's own fault.
pub open spec fn feature_problem(nodes: Seq<FeatureNode>, facts: Seq<FeatureFacts>, i: int) -> Option<
    DocumentFault,
> {
    let id = nodes[i].id;
    if id == 0 || exists|j: int| 0 <= j < i && #[trigger] nodes[j].id == id {
        Some(DocumentFault::InvalidFeatureId(id))
    } else if link_problem(nodes[i].link) is Some {
        link_problem(nodes[i].link)
    } else if definition_fault_at(facts, i) is Some {
        definition_fault_at(facts, i)
    } else if has_material_at(facts, i) && nodes[i].link.is_reference() {
        Some(DocumentFault::InvalidParameter(reference_material_message(id)))
    } else if has_material_at(facts, i) {
        material_fault_at(facts, i)
    } else {
        None
    }
}

pub open spec fn features_problem_from(nodes: Seq<FeatureNode>, facts: Seq<FeatureFacts>, i: int) -> Option<
    DocumentFault,
>
    decreases nodes.len() - i,
{
    if i < 0 || i >= nodes.len() {
        None
    } else if feature_problem(nodes, facts, i) is Some {
        feature_problem(nodes, facts, i)
    } else {
        features_problem_from(nodes, facts, i + 1)
    }
}

/// The fault the host reported, copied.
fn copy_fault(e: &Option<DocumentError>) -> (c: Option<DocumentError>)
    ensures
        fault_of(c) == fault_of(*e),
{
    match e {
        Some(x) => Some(x.copy()),
        None => None,
    }
}

/// Checks each feature in order.
pub fn check_features(nodes: &Vec<FeatureNode>, facts: &Vec<FeatureFacts>) -> (r: Result<
    (),
    DocumentError,
>)
    ensures
        match features_problem_from(nodes@, facts@, 0) {
            Some(f) => r matches Err(e) && e@ == f,
            None => r is Ok,
        },
{
    let mut i: usize = 0;
    while i < nodes.len()
        invariant
            i <= nodes@.len(),
            features_problem_from(nodes@, facts@, 0) == features_problem_from(nodes@, facts@, i as int),
        decreases nodes@.len() - i,
    {
        let id = nodes[i].id;
        if id == 0 {
            return Err(DocumentError::InvalidFeatureId(id));
        }
        let mut j: usize = 0;
        while j < i
            invariant
                j <= i < nodes@.len(),
                id == nodes@[i as int].id,
                features_problem_from(nodes@, facts@, 0) == features_problem_from(
                    nodes@,
                    facts@,
                    i as int,
                ),
                forall|q: int| 0 <= q < j ==> (#[trigger] nodes@[q]).id != id,
            decreases i - j,
        {
            if nodes[j].id == id {
                proof {
                    assert(nodes@[j as int].id == id);
                    assert(feature_problem(nodes@, facts@, i as int) == Some(
                        DocumentFault::InvalidFeatureId(id),
                    ));
                }
                return Err(DocumentError::InvalidFeatureId(id));
            }
            j += 1;
        }
        match &nodes[i].link {
            FeatureLink::Boolean { left, right, .. } => {
                if *left == *right || *left == 0 || *right == 0 {
                    return Err(
                        DocumentError::InvalidParameter(
                            "boolean operands must be two distinct, non-zero feature ids".to_owned(),
                        ),
                    );
                }
            },
            FeatureLink::Sketch { plane } => {
                if !plane.is_valid() {
                    return Err(
                        DocumentError::InvalidParameter(
                            "datum-attached sketches must reference a non-zero datum feature id".to_owned(),
                        ),
                    );
                }
            },
            _ => {},
        }
        if i < facts.len() {
            let f = &facts[i];
            if f.definition_fault.is_some() {
                match copy_fault(&f.definition_fault) {
                    Some(e) => {
                        return Err(e);
                    },
                    None => {},
                }
            }
            if f.has_material {
                if nodes[i].link.is_reference_geometry() {
                    let mut m = String::new();
                    push_str(&mut m, "feature ");
                    push_decimal(&mut m, id);
                    push_str(&mut m, " cannot assign material to reference geometry");
                    proof {
                        assert(m@ =~= reference_material_message(id));
                    }
                    return Err(DocumentError::InvalidParameter(m));
                }
                match copy_fault(&f.material_fault) {
                    Some(e) => {
                        return Err(e);
                    },
                    None => {},
                }
            }
        }
        proof {
            assert(feature_problem(nodes@, facts@, i as int) is None);
        }
        i += 1;
    }
    Ok(())
}


// ---------------------------------------------------------------------------
// Assemblies and the features their occurrences own
// ---------------------------------------------------------------------------

/// The position of the first feature, from position `i` on, with id `id`.
pub open spec fn feature_index(nodes: Seq<FeatureNode>, id: FeatureId, i: int) -> Option<int>
    decreases nodes.len() - i,
{
    if i < 0 || i >= nodes.len() {
        None
    } else if nodes[i].id == id {
        Some(i)
    } else {
        feature_index(nodes, id, i + 1)
    }
}

pub open spec fn mismatches_at(facts: Seq<AssemblyFacts>, a: int) -> Seq<(ComponentOccurrenceId, FeatureId)> {
    if 0 <= a < facts.len() {
        facts[a].mismatches@
    } else {
        Seq::empty()
    }
}

pub open spec fn hierarchy_fault_at(facts: Seq<AssemblyFacts>, a: int) -> Option<AssemblyError> {
    if 0 <= a < facts.len() {
        facts[a].hierarchy_fault
    } else {
        None
    }
}

/// Occurrence `occ` of assembly `assembly` taking feature `f`, given the owners
/// so far: the feature must exist, be a solid, sit where the occurrence puts
/// it, and have no owner yet.
pub open spec fn own_step(
    nodes: Seq<FeatureNode>,
    mismatches: Seq<(ComponentOccurrenceId, FeatureId)>,
    owners: Map<FeatureId, (AssemblyId, ComponentOccurrenceId)>,
    assembly: AssemblyId,
    occ: ComponentOccurrenceId,
    f: FeatureId,
) -> Result<Map<FeatureId, (AssemblyId, ComponentOccurrenceId)>, DocumentFault> {
    match feature_index(nodes, f, 0) {
        None => Err(
            DocumentFault::Assembly(AssemblyError::MissingFeature { occurrence: occ, feature: f }),
        ),
        Some(i) => if nodes[i].link.is_reference() {
            Err(
                DocumentFault::Assembly(
                    AssemblyError::NonSolidFeature { occurrence: occ, feature: f },
                ),
            )
        } else if mismatches.contains((occ, f)) {
            Err(
                DocumentFault::Assembly(
                    AssemblyError::FeatureTransformMismatch { occurrence: occ, feature: f },
                ),
            )
        } else if owners.contains_key(f) {
            Err(
                DocumentFault::FeatureInMultipleAssemblies {
                    id: f,
                    first_assembly: owners[f].0,
                    first_occurrence: owners[f].1,
                    second_assembly: assembly,
                    second_occurrence: occ,
                },
            )
        } else {
            Ok(owners.insert(f, (assembly, occ)))
        },
    }
}

pub open spec fn own_features_from(
    nodes: Seq<FeatureNode>,
    mismatches: Seq<(ComponentOccurrenceId, FeatureId)>,
    owners: Map<FeatureId, (AssemblyId, ComponentOccurrenceId)>,
    assembly: AssemblyId,
    occ: ComponentOccurrenceId,
    fs: Seq<FeatureId>,
    k: int,
) -> Result<Map<FeatureId, (AssemblyId, ComponentOccurrenceId)>, DocumentFault>
    decreases fs.len() - k,
{
    if k < 0 || k >= fs.len() {
        Ok(owners)
    } else {
        match own_step(nodes, mismatches, owners, assembly, occ, fs[k]) {
            Err(e) => Err(e),
            Ok(next) => own_features_from(nodes, mismatches, next, assembly, occ, fs, k + 1),
        }
    }
}

pub open spec fn own_occurrences_from(
    nodes: Seq<FeatureNode>,
    mismatches: Seq<(ComponentOccurrenceId, FeatureId)>,
    owners: Map<FeatureId, (AssemblyId, ComponentOccurrenceId)>,
    assembly: AssemblyId,
    occs: Seq<OccurrenceRecord>,
    o: int,
) -> Result<Map<FeatureId, (AssemblyId, ComponentOccurrenceId)>, DocumentFault>
    decreases occs.len() - o,
{
    if o < 0 || o >= occs.len() {
        Ok(owners)
    } else {
        match own_features_from(nodes, mismatches, owners, assembly, occs[o].id, occs[o].feature_ids@, 0) {
            Err(e) => Err(e),
            Ok(next) => own_occurrences_from(nodes, mismatches, next, assembly, occs, o + 1),
        }
    }
}

/// What the check of assembly `a` itself reports: a repeated id, the
/// assembly's own checks, and the host's placement-hierarchy fault.
pub open spec fn assembly_problem(
    asms: Seq<AssemblyRecord>,
    facts: Seq<AssemblyFacts>,
    available: Seq<FeatureId>,
    a: int,
) -> Option<DocumentFault> {
    let assembly = asms[a];
    if exists|b: int| 0 <= b < a && #[trigger] asms[b].id == assembly.id {
        Some(DocumentFault::Assembly(AssemblyError::InvalidAssemblyId(assembly.id)))
    } else if assembly_fault(assembly, available) is Some {
        Some(DocumentFault::Assembly(assembly_fault(assembly, available)->0))
    } else if hierarchy_fault_at(facts, a) is Some {
        Some(DocumentFault::Assembly(hierarchy_fault_at(facts, a)->0))
    } else {
        None
    }
}

pub open spec fn assemblies_from(
    nodes: Seq<FeatureNode>,
    asms: Seq<AssemblyRecord>,
    facts: Seq<AssemblyFacts>,
    owners: Map<FeatureId, (AssemblyId, ComponentOccurrenceId)>,
    a: int,
) -> Result<Map<FeatureId, (AssemblyId, ComponentOccurrenceId)>, DocumentFault>
    decreases asms.len() - a,
{
    if a < 0 || a >= asms.len() {
        Ok(owners)
    } else if assembly_problem(asms, facts, feature_ids(nodes), a) is Some {
        Err(assembly_problem(asms, facts, feature_ids(nodes), a)->0)
    } else {
        match own_occurrences_from(
            nodes,
            mismatches_at(facts, a),
            owners,
            asms[a].id,
            asms[a].occurrences@,
            0,
        ) {
            Err(e) => Err(e),
            Ok(next) => assemblies_from(nodes, asms, facts, next, a + 1),
        }
    }
}

pub open spec fn feature_ids(nodes: Seq<FeatureNode>) -> Seq<FeatureId> {
    nodes.map_values(|n: FeatureNode| n.id)
}

fn find_feature(nodes: &Vec<FeatureNode>, id: FeatureId) -> (r: Option<usize>)
    ensures
        match r {
            Some(i) => feature_index(nodes@, id, 0) == Some(i as int) && i < nodes@.len(),
            None => feature_index(nodes@, id, 0) is None,
        },
{
    let mut i: usize = 0;
    while i < nodes.len()
        invariant
            i <= nodes@.len(),
            feature_index(nodes@, id, 0) == feature_index(nodes@, id, i as int),
        decreases nodes@.len() - i,
    {
        if nodes[i].id == id {
            return Some(i);
        }
        i += 1;
    }
    None
}

fn listed(pairs: &Vec<(u64, u64)>, occ: u64, f: u64) -> (r: bool)
    ensures
        r == pairs@.contains((occ, f)),
{
    let mut i: usize = 0;
    while i < pairs.len()
        invariant
            i <= pairs@.len(),
            forall|j: int| 0 <= j < i ==> pairs@[j] != (occ, f),
        decreases pairs@.len() - i,
    {
        if pairs[i].0 == occ && pairs[i].1 == f {
            proof {
                assert(pairs@[i as int] == (occ, f));
            }
            return true;
        }
        i += 1;
    }
    false
}

fn own_features(
    nodes: &Vec<FeatureNode>,
    mismatches: &Vec<(u64, u64)>,
    owners: &mut BTreeMap<FeatureId, (AssemblyId, ComponentOccurrenceId)>,
    assembly: AssemblyId,
    occ: ComponentOccurrenceId,
    fs: &Vec<FeatureId>,
) -> (r: Result<(), DocumentError>)
    ensures
        match own_features_from(nodes@, mismatches@, old(owners)@, assembly, occ, fs@, 0) {
            Err(f) => r matches Err(e) && e@ == f,
            Ok(m) => r is Ok && final(owners)@ == m,
        },
{
    let mut k: usize = 0;
    while k < fs.len()
        invariant
            k <= fs@.len(),
            own_features_from(nodes@, mismatches@, old(owners)@, assembly, occ, fs@, 0)
                == own_features_from(nodes@, mismatches@, owners@, assembly, occ, fs@, k as int),
        decreases fs@.len() - k,
    {
        let f = fs[k];
        match find_feature(nodes, f) {
            None => {
                return Err(
                    DocumentError::Assembly(
                        AssemblyError::MissingFeature { occurrence: occ, feature: f },
                    ),
                );
            },
            Some(i) => {
                if nodes[i].link.is_reference_geometry() {
                    return Err(
                        DocumentError::Assembly(
                            AssemblyError::NonSolidFeature { occurrence: occ, feature: f },
                        ),
                    );
                }
            },
        }
        if listed(mismatches, occ, f) {
            return Err(
                DocumentError::Assembly(
                    AssemblyError::FeatureTransformMismatch { occurrence: occ, feature: f },
                ),
            );
        }
        match owners.get(&f) {
            Some(owner) => {
                return Err(
                    DocumentError::FeatureInMultipleAssemblies {
                        id: f,
                        first_assembly: owner.0,
                        first_occurrence: owner.1,
                        second_assembly: assembly,
                        second_occurrence: occ,
                    },
                );
            },
            None => {},
        }
        owners.insert(f, (assembly, occ));
        k += 1;
    }
    Ok(())
}

fn own_occurrences(
    nodes: &Vec<FeatureNode>,
    mismatches: &Vec<(u64, u64)>,
    owners: &mut BTreeMap<FeatureId, (AssemblyId, ComponentOccurrenceId)>,
    assembly: AssemblyId,
    occs: &Vec<OccurrenceRecord>,
) -> (r: Result<(), DocumentError>)
    ensures
        match own_occurrences_from(nodes@, mismatches@, old(owners)@, assembly, occs@, 0) {
            Err(f) => r matches Err(e) && e@ == f,
            Ok(m) => r is Ok && final(owners)@ == m,
        },
{
    let mut o: usize = 0;
    while o < occs.len()
        invariant
            o <= occs@.len(),
            own_occurrences_from(nodes@, mismatches@, old(owners)@, assembly, occs@, 0)
                == own_occurrences_from(nodes@, mismatches@, owners@, assembly, occs@, o as int),
        decreases occs@.len() - o,
    {
        if let Err(e) = own_features(nodes, mismatches, owners, assembly, occs[o].id, &occs[o].feature_ids) {
            return Err(e);
        }
        o += 1;
    }
    Ok(())
}

/// Checks each assembly in order, and which occurrence owns each feature.
pub fn check_assemblies(
    nodes: &Vec<FeatureNode>,
    asms: &Vec<AssemblyRecord>,
    facts: &Vec<AssemblyFacts>,
) -> (r: Result<(), DocumentError>)
    ensures
        match assemblies_from(nodes@, asms@, facts@, Map::empty(), 0) {
            Err(f) => r matches Err(e) && e@ == f,
            Ok(_) => r is Ok,
        },
{
    let mut available: Vec<FeatureId> = Vec::new();
    let mut i: usize = 0;
    while i < nodes.len()
        invariant
            i <= nodes@.len(),
            available@ == feature_ids(nodes@).take(i as int),
        decreases nodes@.len() - i,
    {
        available.push(nodes[i].id);
        proof {
            assert(available@ =~= feature_ids(nodes@).take(i + 1));
        }
        i += 1;
    }
    proof {
        assert(available@ =~= feature_ids(nodes@));
    }
    let empty: Vec<(u64, u64)> = Vec::new();
    let mut owners: BTreeMap<FeatureId, (AssemblyId, ComponentOccurrenceId)> = BTreeMap::new();
    let mut a: usize = 0;
    while a < asms.len()
        invariant
            a <= asms@.len(),
            available@ == feature_ids(nodes@),
            empty@ == Seq::<(u64, u64)>::empty(),
            assemblies_from(nodes@, asms@, facts@, Map::empty(), 0) == assemblies_from(
                nodes@,
                asms@,
                facts@,
                owners@,
                a as int,
            ),
        decreases asms@.len() - a,
    {
        let assembly = &asms[a];
        let mut b: usize = 0;
        while b < a
            invariant
                b <= a < asms@.len(),
                *assembly == asms@[a as int],
                assemblies_from(nodes@, asms@, facts@, Map::empty(), 0) == assemblies_from(
                    nodes@,
                    asms@,
                    facts@,
                    owners@,
                    a as int,
                ),
                forall|q: int| 0 <= q < b ==> (#[trigger] asms@[q]).id != assembly.id,
            decreases a - b,
        {
            if asms[b].id == assembly.id {
                proof {
                    assert(asms@[b as int].id == assembly.id);
                    assert(assembly_problem(asms@, facts@, feature_ids(nodes@), a as int) == Some(
                        DocumentFault::Assembly(AssemblyError::InvalidAssemblyId(assembly.id)),
                    ));
                }
                return Err(DocumentError::Assembly(AssemblyError::InvalidAssemblyId(assembly.id)));
            }
            b += 1;
        }
        if let Err(e) = assembly.validate(&available) {
            return Err(DocumentError::Assembly(e));
        }
        let mismatches = if a < facts.len() {
            if let Some(e) = facts[a].hierarchy_fault {
                return Err(DocumentError::Assembly(e));
            }
            &facts[a].mismatches
        } else {
            &empty
        };
        proof {
            assert(assembly_problem(asms@, facts@, feature_ids(nodes@), a as int) is None);
            assert(mismatches@ == mismatches_at(facts@, a as int));
        }
        if let Err(e) = own_occurrences(nodes, mismatches, &mut owners, assembly.id, &assembly.occurrences) {
            return Err(e);
        }
        a += 1;
    }
    Ok(())
}


// ---------------------------------------------------------------------------
// Suppressed occurrences and the features that depend on them
// ---------------------------------------------------------------------------

/// The features of the occurrences that suppression map `m` suppresses.
pub open spec fn suppressed_in(occs: Seq<OccurrenceRecord>, m: Map<ComponentOccurrenceId, bool>) -> Set<
    FeatureId,
> {
    Set::new(
        |f: FeatureId|
            exists|k: int|
                0 <= k < occs.len() && m.contains_key(occs[k].id) && m[occs[k].id]
                    && #[trigger] occs[k].feature_ids@.contains(f),
    )
}

/// The features of every effectively suppressed occurrence of the
/// assemblies from `a` on; the first assembly whose suppression does not
/// resolve stops it.
pub open spec fn suppressed_from(asms: Seq<AssemblyRecord>, a: int) -> Result<Set<FeatureId>, AssemblyError>
    decreases asms.len() - a,
{
    if a < 0 || a >= asms.len() {
        Ok(Set::empty())
    } else {
        match effective_suppression_of(asms[a].occurrences@) {
            Err(e) => Err(e),
            Ok(m) => match suppressed_from(asms, a + 1) {
                Err(e) => Err(e),
                Ok(rest) => Ok(suppressed_in(asms[a].occurrences@, m).union(rest)),
            },
        }
    }
}

fn flag_of(v: &Vec<(u64, bool)>, id: u64) -> (r: Option<bool>)
    requires
        keys_sorted(v@),
    ensures
        r == (if entries_map(v@).contains_key(id) {
            Some(entries_map(v@)[id])
        } else {
            None
        }),
{
    let mut i: usize = 0;
    while i < v.len()
        invariant
            i <= v@.len(),
            keys_sorted(v@),
            forall|j: int| 0 <= j < i ==> v@[j].0 != id,
        decreases v@.len() - i,
    {
        if v[i].0 == id {
            proof {
                lemma_entries_value(v@, i as int);
            }
            return Some(v[i].1);
        }
        i += 1;
    }
    proof {
        if entries_map(v@).contains_key(id) {
            let j = choose|j: int| 0 <= j < v@.len() && #[trigger] v@[j].0 == id;
        }
    }
    None
}

/// The features of every effectively suppressed occurrence.
pub fn suppressed_features(asms: &Vec<AssemblyRecord>) -> (r: Result<Vec<FeatureId>, AssemblyError>)
    ensures
        match suppressed_from(asms@, 0) {
            Err(e) => r == Err::<Vec<FeatureId>, AssemblyError>(e),
            Ok(s) => r matches Ok(v) && v@.to_set() == s,
        },
{
    let mut found: Vec<FeatureId> = Vec::new();
    let mut a: usize = 0;
    proof {
        match suppressed_from(asms@, 0) {
            Ok(s) => {
                assert(found@.to_set().union(s) =~= s);
            },
            Err(_) => {},
        }
    }
    while a < asms.len()
        invariant
            a <= asms@.len(),
            match suppressed_from(asms@, a as int) {
                Err(e) => suppressed_from(asms@, 0) == Err::<Set<FeatureId>, AssemblyError>(e),
                Ok(s) => suppressed_from(asms@, 0) == Ok::<Set<FeatureId>, AssemblyError>(
                    found@.to_set().union(s),
                ),
            },
        decreases asms@.len() - a,
    {
        let effective = match asms[a].effective_suppression() {
            Ok(v) => v,
            Err(e) => {
                return Err(e);
            },
        };
        let occs = &asms[a].occurrences;
        let ghost m = entries_map(effective@);
        let ghost before = found@.to_set();
        let mut k: usize = 0;
        while k < occs.len()
            invariant
                k <= occs@.len(),
                keys_sorted(effective@),
                m == entries_map(effective@),
                found@.to_set() == before.union(
                    Set::new(
                        |f: FeatureId|
                            exists|q: int|
                                0 <= q < k && m.contains_key(occs@[q].id) && m[occs@[q].id]
                                    && #[trigger] occs@[q].feature_ids@.contains(f),
                    ),
                ),
            decreases occs@.len() - k,
        {
            let ghost mid = found@.to_set();
            if flag_of(&effective, occs[k].id) == Some(true) {
                let fs = &occs[k].feature_ids;
                let mut j: usize = 0;
                while j < fs.len()
                    invariant
                        j <= fs@.len(),
                        found@.to_set() == mid.union(fs@.take(j as int).to_set()),
                    decreases fs@.len() - j,
                {
                    let ghost prior = found@;
                    found.push(fs[j]);
                    proof {
                        let t = fs@.take(j + 1);
                        assert(t =~= fs@.take(j as int).push(fs@[j as int]));
                        assert forall|x: FeatureId| found@.to_set().contains(x) <==> mid.union(
                            t.to_set(),
                        ).contains(x) by {
                            if found@.contains(x) {
                                let q = choose|q: int| 0 <= q < found@.len() && found@[q] == x;
                                if q < prior.len() {
                                    assert(prior[q] == x);
                                    assert(prior.to_set().contains(x));
                                } else {
                                    assert(t[j as int] == x);
                                }
                            }
                            if t.contains(x) {
                                let q = choose|q: int| 0 <= q < t.len() && t[q] == x;
                                if q < j {
                                    assert(fs@.take(j as int)[q] == x);
                                    assert(fs@.take(j as int).to_set().contains(x));
                                } else {
                                    assert(found@[prior.len() as int] == x);
                                }
                            }
                            if prior.to_set().contains(x) {
                                let q = choose|q: int| 0 <= q < prior.len() && prior[q] == x;
                                assert(found@[q] == x);
                            }
                        }
                        assert(found@.to_set() =~= mid.union(t.to_set()));
                    }
                    j += 1;
                }
                proof {
                    assert(fs@.take(fs@.len() as int) =~= fs@);
                }
            }
            proof {
                let next = Set::new(
                    |f: FeatureId|
                        exists|q: int|
                            0 <= q < k + 1 && m.contains_key(occs@[q].id) && m[occs@[q].id]
                                && #[trigger] occs@[q].feature_ids@.contains(f),
                );
                assert forall|f: FeatureId| found@.to_set().contains(f) <==> before.union(next).contains(f) by {
                    if m.contains_key(occs@[k as int].id) && m[occs@[k as int].id] && occs@[k as int].feature_ids@.contains(f) {
                        assert(next.contains(f));
                    }
                }
                assert(found@.to_set() =~= before.union(next));
            }
            k += 1;
        }
        proof {
            let this = suppressed_in(asms@[a as int].occurrences@, m);
            assert(this =~= Set::new(
                |f: FeatureId|
                    exists|q: int|
                        0 <= q < occs@.len() && m.contains_key(occs@[q].id) && m[occs@[q].id]
                            && #[trigger] occs@[q].feature_ids@.contains(f),
            ));
            match suppressed_from(asms@, a + 1) {
                Ok(rest) => {
                    assert(before.union(this.union(rest)) =~= found@.to_set().union(rest));
                },
                Err(_) => {},
            }
        }
        a += 1;
    }
    proof {
        assert(found@.to_set().union(Set::<FeatureId>::empty()) =~= found@.to_set());
    }
    Ok(found)
}

/// The first of `deps`, from position `j` on, that `s` holds.
pub open spec fn first_held(deps: Seq<FeatureId>, s: Set<FeatureId>, j: int) -> Option<FeatureId>
    decreases deps.len() - j,
{
    if j < 0 || j >= deps.len() {
        None
    } else if s.contains(deps[j]) {
        Some(deps[j])
    } else {
        first_held(deps, s, j + 1)
    }
}

/// The first active feature, from position `i` on, that depends on a
/// suppressed feature.
pub open spec fn dependency_problem_from(nodes: Seq<FeatureNode>, s: Set<FeatureId>, i: int) -> Option<
    DocumentFault,
>
    decreases nodes.len() - i,
{
    if i < 0 || i >= nodes.len() {
        None
    } else if !s.contains(nodes[i].id) && first_held(nodes[i].link.deps(), s, 0) is Some {
        Some(
            DocumentFault::SuppressedFeatureDependency {
                feature: nodes[i].id,
                dependency: first_held(nodes[i].link.deps(), s, 0)->0,
            },
        )
    } else {
        dependency_problem_from(nodes, s, i + 1)
    }
}

fn holds(v: &Vec<FeatureId>, f: FeatureId) -> (r: bool)
    ensures
        r == v@.contains(f),
{
    let mut i: usize = 0;
    while i < v.len()
        invariant
            i <= v@.len(),
            forall|j: int| 0 <= j < i ==> v@[j] != f,
        decreases v@.len() - i,
    {
        if v[i] == f {
            return true;
        }
        i += 1;
    }
    false
}

/// No active feature may depend on a feature a suppressed occurrence owns.
pub fn check_suppressed_dependencies(nodes: &Vec<FeatureNode>, suppressed: &Vec<FeatureId>) -> (r: Result<
    (),
    DocumentError,
>)
    ensures
        match dependency_problem_from(nodes@, suppressed@.to_set(), 0) {
            Some(f) => r matches Err(e) && e@ == f,
            None => r is Ok,
        },
{
    let ghost s = suppressed@.to_set();
    let mut i: usize = 0;
    while i < nodes.len()
        invariant
            i <= nodes@.len(),
            s == suppressed@.to_set(),
            dependency_problem_from(nodes@, s, 0) == dependency_problem_from(nodes@, s, i as int),
        decreases nodes@.len() - i,
    {
        if !holds(suppressed, nodes[i].id) {
            let deps = nodes[i].link.dependencies();
            let mut j: usize = 0;
            while j < deps.len()
                invariant
                    j <= deps@.len(),
                    i < nodes@.len(),
                    deps@ == nodes@[i as int].link.deps(),
                    s == suppressed@.to_set(),
                    !s.contains(nodes@[i as int].id),
                    dependency_problem_from(nodes@, s, 0) == dependency_problem_from(
                        nodes@,
                        s,
                        i as int,
                    ),
                    first_held(deps@, s, 0) == first_held(deps@, s, j as int),
                decreases deps@.len() - j,
            {
                if holds(suppressed, deps[j]) {
                    return Err(
                        DocumentError::SuppressedFeatureDependency {
                            feature: nodes[i].id,
                            dependency: deps[j],
                        },
                    );
                }
                j += 1;
            }
        }
        i += 1;
    }
    Ok(())
}


// ---------------------------------------------------------------------------
// Check and repair
// ---------------------------------------------------------------------------

/// The largest feature id (0 without features).
pub open spec fn max_feature_id(nodes: Seq<FeatureNode>) -> FeatureId
    decreases nodes.len(),
{
    if nodes.len() == 0 {
        0
    } else {
        let m = max_feature_id(nodes.drop_last());
        if m < nodes.last().id {
            nodes.last().id
        } else {
            m
        }
    }
}

/// The largest assembly id (0 without assemblies).
pub open spec fn max_assembly_id(asms: Seq<AssemblyRecord>) -> AssemblyId
    decreases asms.len(),
{
    if asms.len() == 0 {
        0
    } else {
        let m = max_assembly_id(asms.drop_last());
        if m < asms.last().id {
            asms.last().id
        } else {
            m
        }
    }
}

/// What the checks of model `d` report before its ids are moved on: its
/// features, its dependency graph, its assemblies and the features their
/// occurrences own, and dependencies on suppressed features.
pub open spec fn model_problem(d: CadDocument, facts: ModelFacts) -> Option<DocumentFault> {
    let nodes = d.features@;
    if features_problem_from(nodes, facts.features@, 0) is Some {
        features_problem_from(nodes, facts.features@, 0)
    } else if graph_problem(nodes) is Some {
        graph_problem(nodes)
    } else if schedule(nodes).len() != nodes.len() {
        Some(DocumentFault::DependencyCycle { cycle: unplaced(nodes, schedule(nodes)) })
    } else if assemblies_from(nodes, d.assemblies@, facts.assemblies@, Map::empty(), 0) is Err {
        Some(assemblies_from(nodes, d.assemblies@, facts.assemblies@, Map::empty(), 0)->Err_0)
    } else {
        match suppressed_from(d.assemblies@, 0) {
            Err(e) => Some(DocumentFault::Assembly(e)),
            Ok(s) => dependency_problem_from(nodes, s, 0),
        }
    }
}

fn largest_feature_id(nodes: &Vec<FeatureNode>) -> (m: FeatureId)
    ensures
        m == max_feature_id(nodes@),
{
    let mut m: FeatureId = 0;
    let mut i: usize = 0;
    proof {
        assert(nodes@.take(0) =~= Seq::<FeatureNode>::empty());
    }
    while i < nodes.len()
        invariant
            i <= nodes@.len(),
            m == max_feature_id(nodes@.take(i as int)),
        decreases nodes@.len() - i,
    {
        proof {
            assert(nodes@.take(i + 1).drop_last() =~= nodes@.take(i as int));
        }
        if m < nodes[i].id {
            m = nodes[i].id;
        }
        i += 1;
    }
    proof {
        assert(nodes@.take(nodes@.len() as int) =~= nodes@);
    }
    m
}

fn largest_assembly_id(asms: &Vec<AssemblyRecord>) -> (m: AssemblyId)
    ensures
        m == max_assembly_id(asms@),
{
    let mut m: AssemblyId = 0;
    let mut i: usize = 0;
    proof {
        assert(asms@.take(0) =~= Seq::<AssemblyRecord>::empty());
    }
    while i < asms.len()
        invariant
            i <= asms@.len(),
            m == max_assembly_id(asms@.take(i as int)),
        decreases asms@.len() - i,
    {
        proof {
            assert(asms@.take(i + 1).drop_last() =~= asms@.take(i as int));
        }
        if m < asms[i].id {
            m = asms[i].id;
        }
        i += 1;
    }
    proof {
        assert(asms@.take(asms@.len() as int) =~= asms@);
    }
    m
}

impl CadDocument {
    /// Checks the model and, when it passes, moves the next ids past the ids
    /// in use and normalizes the name. `facts` are the host's facts about
    /// this model. A model that fails is left as it is, but for an assembly
    /// id overflow, which is found after the next feature id was moved on.
    pub fn validate_and_repair(&mut self, facts: &ModelFacts) -> (r: Result<(), DocumentError>)
        ensures
            final(self).features == old(self).features,
            final(self).assemblies == old(self).assemblies,
            match model_problem(*old(self), *facts) {
                Some(f) => r matches Err(e) && e@ == f && *final(self) == *old(self),
                None => if max_feature_id(old(self).features@) == u64::MAX {
                    r matches Err(e) && e@ == DocumentFault::IdOverflow && *final(self)
                        == *old(self)
                } else if max_assembly_id(old(self).assemblies@) == u64::MAX {
                    r matches Err(e) && e@ == DocumentFault::IdOverflow && final(self).next_id
                        == max_feature_id(old(self).features@) + 1 && final(self).name
                        == old(self).name && final(self).next_assembly_id
                        == old(self).next_assembly_id
                } else {
                    r is Ok && final(self).next_id == max_feature_id(old(self).features@) + 1
                        && final(self).next_assembly_id == max_assembly_id(old(self).assemblies@)
                        + 1 && final(self).name@ == normalized(old(self).name@, "Untitled"@)
                },
            },
    {
        if let Err(e) = check_features(&self.features, &facts.features) {
            return Err(e);
        }
        if let Err(e) = FeatureGraph::build(&self.features) {
            return Err(e);
        }
        if let Err(e) = check_assemblies(&self.features, &self.assemblies, &facts.assemblies) {
            return Err(e);
        }
        let suppressed = match suppressed_features(&self.assemblies) {
            Ok(v) => v,
            Err(e) => {
                return Err(DocumentError::Assembly(e));
            },
        };
        if let Err(e) = check_suppressed_dependencies(&self.features, &suppressed) {
            return Err(e);
        }
        let maximum_id = largest_feature_id(&self.features);
        let maximum_assembly_id = largest_assembly_id(&self.assemblies);
        if maximum_id == u64::MAX {
            return Err(DocumentError::IdOverflow);
        }
        self.next_id = maximum_id + 1;
        if maximum_assembly_id == u64::MAX {
            return Err(DocumentError::IdOverflow);
        }
        self.next_assembly_id = maximum_assembly_id + 1;
        self.name = normalized_name(self.name.as_str(), "Untitled");
        Ok(())
    }
}


// ---------------------------------------------------------------------------
// Lookups
// ---------------------------------------------------------------------------

/// The position of the first assembly, from position `a` on, with id `id`.
pub open spec fn assembly_index(asms: Seq<AssemblyRecord>, id: AssemblyId, a: int) -> Option<int>
    decreases asms.len() - a,
{
    if a < 0 || a >= asms.len() {
        None
    } else if asms[a].id == id {
        Some(a)
    } else {
        assembly_index(asms, id, a + 1)
    }
}

/// The first position, from `k` on, holding `f`.
pub open spec fn slot_of(fs: Seq<FeatureId>, f: FeatureId, k: int) -> Option<int>
    decreases fs.len() - k,
{
    if k < 0 || k >= fs.len() {
        None
    } else if fs[k] == f {
        Some(k)
    } else {
        slot_of(fs, f, k + 1)
    }
}

/// The first occurrence, from position `o` on, that owns `f`, with the
/// slot `f` has in it.
pub open spec fn occurrence_owning(occs: Seq<OccurrenceRecord>, f: FeatureId, o: int) -> Option<
    (int, int),
>
    decreases occs.len() - o,
{
    if o < 0 || o >= occs.len() {
        None
    } else {
        match slot_of(occs[o].feature_ids@, f, 0) {
            Some(k) => Some((o, k)),
            None => occurrence_owning(occs, f, o + 1),
        }
    }
}

/// The first assembly, from position `a` on, with an occurrence that owns
/// `f`: the assembly, the occurrence, and the slot.
pub open spec fn assembly_owning(asms: Seq<AssemblyRecord>, f: FeatureId, a: int) -> Option<
    (int, int, int),
>
    decreases asms.len() - a,
{
    if a < 0 || a >= asms.len() {
        None
    } else {
        match occurrence_owning(asms[a].occurrences@, f, 0) {
            Some((o, k)) => Some((a, o, k)),
            None => assembly_owning(asms, f, a + 1),
        }
    }
}

fn find_slot(fs: &Vec<FeatureId>, f: FeatureId) -> (r: Option<usize>)
    ensures
        match r {
            Some(k) => slot_of(fs@, f, 0) == Some(k as int),
            None => slot_of(fs@, f, 0) is None,
        },
{
    let mut k: usize = 0;
    while k < fs.len()
        invariant
            k <= fs@.len(),
            slot_of(fs@, f, 0) == slot_of(fs@, f, k as int),
        decreases fs@.len() - k,
    {
        if fs[k] == f {
            return Some(k);
        }
        k += 1;
    }
    None
}

fn find_owner(asms: &Vec<AssemblyRecord>, f: FeatureId) -> (r: Option<(usize, usize, usize)>)
    ensures
        match r {
            Some((a, o, k)) => assembly_owning(asms@, f, 0) == Some((a as int, o as int, k as int))
                && a < asms@.len() && o < asms@[a as int].occurrences@.len(),
            None => assembly_owning(asms@, f, 0) is None,
        },
{
    let mut a: usize = 0;
    while a < asms.len()
        invariant
            a <= asms@.len(),
            assembly_owning(asms@, f, 0) == assembly_owning(asms@, f, a as int),
        decreases asms@.len() - a,
    {
        let occs = &asms[a].occurrences;
        let mut o: usize = 0;
        while o < occs.len()
            invariant
                o <= occs@.len(),
                a < asms@.len(),
                occs@ == asms@[a as int].occurrences@,
                assembly_owning(asms@, f, 0) == assembly_owning(asms@, f, a as int),
                occurrence_owning(occs@, f, 0) == occurrence_owning(occs@, f, o as int),
            decreases occs@.len() - o,
        {
            if let Some(k) = find_slot(&occs[o].feature_ids, f) {
                return Some((a, o, k));
            }
            o += 1;
        }
        a += 1;
    }
    None
}

/// Where slot `k` of occurrence `o` of assembly `a` places its feature.
pub open spec fn instance_at(a: AssemblyRecord, o: OccurrenceRecord, k: int) -> AssemblyFeatureInstance {
    AssemblyFeatureInstance {
        assembly_id: a.id,
        definition_id: o.definition_id,
        occurrence_id: o.id,
        body_slot: k as usize,
    }
}

/// `m` with the first `n` slots of occurrence `o` of assembly `a` entered,
/// a later entry for a feature replacing an earlier one.
pub open spec fn with_slots(
    m: Map<FeatureId, AssemblyFeatureInstance>,
    a: AssemblyRecord,
    o: OccurrenceRecord,
    n: int,
) -> Map<FeatureId, AssemblyFeatureInstance>
    decreases n,
{
    if n <= 0 || n > o.feature_ids@.len() {
        m
    } else {
        with_slots(m, a, o, n - 1).insert(o.feature_ids@[n - 1], instance_at(a, o, n - 1))
    }
}

/// `m` with every slot of the first `n` occurrences of assembly `a` entered.
pub open spec fn with_occurrences(m: Map<FeatureId, AssemblyFeatureInstance>, a: AssemblyRecord, n: int) -> Map<
    FeatureId,
    AssemblyFeatureInstance,
>
    decreases n,
{
    if n <= 0 || n > a.occurrences@.len() {
        m
    } else {
        let o = a.occurrences@[n - 1];
        with_slots(with_occurrences(m, a, n - 1), a, o, o.feature_ids@.len() as int)
    }
}

/// `m` with every slot of the first `n` assemblies entered.
pub open spec fn with_assemblies(
    m: Map<FeatureId, AssemblyFeatureInstance>,
    asms: Seq<AssemblyRecord>,
    n: int,
) -> Map<FeatureId, AssemblyFeatureInstance>
    decreases n,
{
    if n <= 0 || n > asms.len() {
        m
    } else {
        let a = asms[n - 1];
        with_occurrences(with_assemblies(m, asms, n - 1), a, a.occurrences@.len() as int)
    }
}

impl CadDocument {
    /// The first feature with id `id`.
    pub fn feature(&self, id: FeatureId) -> (r: Option<&FeatureNode>)
        ensures
            match feature_index(self.features@, id, 0) {
                Some(i) => r == Some(&self.features@[i]),
                None => r is None,
            },
    {
        match find_feature(&self.features, id) {
            Some(i) => Some(&self.features[i]),
            None => None,
        }
    }

    /// The first assembly with id `id`.
    pub fn assembly(&self, id: AssemblyId) -> (r: Option<&AssemblyRecord>)
        ensures
            match assembly_index(self.assemblies@, id, 0) {
                Some(a) => r == Some(&self.assemblies@[a]),
                None => r is None,
            },
    {
        let mut a: usize = 0;
        while a < self.assemblies.len()
            invariant
                a <= self.assemblies@.len(),
                assembly_index(self.assemblies@, id, 0) == assembly_index(
                    self.assemblies@,
                    id,
                    a as int,
                ),
            decreases self.assemblies@.len() - a,
        {
            if self.assemblies[a].id == id {
                return Some(&self.assemblies[a]);
            }
            a += 1;
        }
        None
    }

    /// The first assembly, and its first occurrence, that owns feature `id`.
    pub fn assembly_occurrence_for_feature(&self, id: FeatureId) -> (r: Option<
        (&AssemblyRecord, &OccurrenceRecord),
    >)
        ensures
            match assembly_owning(self.assemblies@, id, 0) {
                Some((a, o, _)) => r == Some(
                    (&self.assemblies@[a], &self.assemblies@[a].occurrences@[o]),
                ),
                None => r is None,
            },
    {
        match find_owner(&self.assemblies, id) {
            Some((a, o, _)) => Some((&self.assemblies[a], &self.assemblies[a].occurrences[o])),
            None => None,
        }
    }

    /// Where feature `id` is placed: the assembly, definition and occurrence
    /// of the first occurrence that owns it, and its slot there.
    pub fn assembly_feature_instance(&self, id: FeatureId) -> (r: Option<AssemblyFeatureInstance>)
        ensures
            match assembly_owning(self.assemblies@, id, 0) {
                Some((a, o, k)) => r == Some(
                    AssemblyFeatureInstance {
                        assembly_id: self.assemblies@[a].id,
                        definition_id: self.assemblies@[a].occurrences@[o].definition_id,
                        occurrence_id: self.assemblies@[a].occurrences@[o].id,
                        body_slot: k as usize,
                    },
                ),
                None => r is None,
            },
    {
        match find_owner(&self.assemblies, id) {
            Some((a, o, k)) => {
                let occurrence = &self.assemblies[a].occurrences[o];
                Some(
                    AssemblyFeatureInstance {
                        assembly_id: self.assemblies[a].id,
                        definition_id: occurrence.definition_id,
                        occurrence_id: occurrence.id,
                        body_slot: k,
                    },
                )
            },
            None => None,
        }
    }

    /// Where every materialized assembly body is placed, by feature; a
    /// feature placed more than once maps to its last placement.
    pub fn assembly_feature_instances(&self) -> (r: BTreeMap<FeatureId, AssemblyFeatureInstance>)
        ensures
            r@ == with_assemblies(Map::empty(), self.assemblies@, self.assemblies@.len() as int),
    {
        let mut r: BTreeMap<FeatureId, AssemblyFeatureInstance> = BTreeMap::new();
        let asms = &self.assemblies;
        let mut a: usize = 0;
        while a < asms.len()
            invariant
                a <= asms@.len(),
                r@ == with_assemblies(Map::empty(), asms@, a as int),
            decreases asms@.len() - a,
        {
            let assembly = &asms[a];
            let ghost base = r@;
            let mut o: usize = 0;
            while o < assembly.occurrences.len()
                invariant
                    a < asms@.len(),
                    *assembly == asms@[a as int],
                    base == with_assemblies(Map::empty(), asms@, a as int),
                    o <= assembly.occurrences@.len(),
                    r@ == with_occurrences(base, *assembly, o as int),
                decreases assembly.occurrences@.len() - o,
            {
                let occurrence = &assembly.occurrences[o];
                let ghost before = r@;
                let mut k: usize = 0;
                while k < occurrence.feature_ids.len()
                    invariant
                        o < assembly.occurrences@.len(),
                        *occurrence == assembly.occurrences@[o as int],
                        before == with_occurrences(base, *assembly, o as int),
                        k <= occurrence.feature_ids@.len(),
                        r@ == with_slots(before, *assembly, *occurrence, k as int),
                    decreases occurrence.feature_ids@.len() - k,
                {
                    r.insert(
                        occurrence.feature_ids[k],
                        AssemblyFeatureInstance {
                            assembly_id: assembly.id,
                            definition_id: occurrence.definition_id,
                            occurrence_id: occurrence.id,
                            body_slot: k,
                        },
                    );
                    k += 1;
                }
                o += 1;
            }
            a += 1;
        }
        r
    }

    /// The features that consume feature `id`, in definition order.
    pub fn dependents(&self, id: FeatureId) -> (r: Vec<&FeatureNode>)
        ensures
            r@.map_values(|n: &FeatureNode| *n) == self.features@.filter(
                |n: FeatureNode| n.link.deps().contains(id),
            ),
    {
        let mut r: Vec<&FeatureNode> = Vec::new();
        let mut i: usize = 0;
        proof {
            assert(self.features@.take(0) =~= Seq::<FeatureNode>::empty());
        }
        while i < self.features.len()
            invariant
                i <= self.features@.len(),
                r@.map_values(|n: &FeatureNode| *n) == self.features@.take(i as int).filter(
                    |n: FeatureNode| n.link.deps().contains(id),
                ),
            decreases self.features@.len() - i,
        {
            let deps = self.features[i].link.dependencies();
            let mut j: usize = 0;
            let mut uses = false;
            while j < deps.len()
                invariant
                    j <= deps@.len(),
                    uses == deps@.take(j as int).contains(id),
                decreases deps@.len() - j,
            {
                proof {
                    assert(deps@.take(j + 1) =~= deps@.take(j as int).push(deps@[j as int]));
                }
                if deps[j] == id {
                    uses = true;
                }
                proof {
                    let t = deps@.take(j + 1);
                    if deps@[j as int] == id {
                        assert(t[j as int] == id);
                    }
                    if t.contains(id) {
                        let q = choose|q: int| 0 <= q < t.len() && t[q] == id;
                        if q < j {
                            assert(deps@.take(j as int)[q] == id);
                        }
                    }
                    if deps@.take(j as int).contains(id) {
                        let q = choose|q: int| 0 <= q < j && deps@.take(j as int)[q] == id;
                        assert(t[q] == id);
                    }
                }
                j += 1;
            }
            proof {
                assert(deps@.take(deps@.len() as int) =~= deps@);
                let t = self.features@.take(i + 1);
                assert(t.drop_last() =~= self.features@.take(i as int));
                assert(t.last() == self.features@[i as int]);
                reveal(Seq::filter);
            }
            if uses {
                r.push(&self.features[i]);
            }
            proof {
                assert(r@.map_values(|n: &FeatureNode| *n) =~= self.features@.take(i + 1).filter(
                    |n: FeatureNode| n.link.deps().contains(id),
                ));
            }
            i += 1;
        }
        proof {
            assert(self.features@.take(self.features@.len() as int) =~= self.features@);
        }
        r
    }

    /// The id the next created feature gets.
    pub fn next_feature_id(&self) -> (id: FeatureId)
        ensures
            id == self.next_id,
    {
        self.next_id
    }

    /// Builds and checks the dependency graph of the model's features.
    pub fn feature_graph(&self) -> (r: Result<FeatureGraph, DocumentError>)
        ensures
            match graph_problem(self.features@) {
                Some(f) => r matches Err(e) && e@ == f,
                None => if schedule(self.features@).len() == self.features@.len() {
                    r matches Ok(g) && g@ == graph_of(self.features@)
                } else {
                    r matches Err(e) && e@ == (DocumentFault::DependencyCycle {
                        cycle: unplaced(self.features@, schedule(self.features@)),
                    })
                },
            },
    {
        FeatureGraph::build(&self.features)
    }

    /// The features of every occurrence that direct or inherited
    /// suppression excludes.
    pub fn suppressed_assembly_feature_ids(&self) -> (r: Result<Vec<FeatureId>, DocumentError>)
        ensures
            match suppressed_from(self.assemblies@, 0) {
                Err(e) => r matches Err(x) && x@ == DocumentFault::Assembly(e),
                Ok(s) => r matches Ok(v) && v@.to_set() == s,
            },
    {
        match suppressed_features(&self.assemblies) {
            Ok(v) => Ok(v),
            Err(e) => Err(DocumentError::Assembly(e)),
        }
    }
}

// ---------------------------------------------------------------------------
// Structural commands
// ---------------------------------------------------------------------------

/// The first feature, from position `i` on, that consumes feature `id`.
pub open spec fn first_dependent(nodes: Seq<FeatureNode>, id: FeatureId, i: int) -> Option<FeatureId>
    decreases nodes.len() - i,
{
    if i < 0 || i >= nodes.len() {
        None
    } else if nodes[i].link.deps().contains(id) {
        Some(nodes[i].id)
    } else {
        first_dependent(nodes, id, i + 1)
    }
}

/// What deleting feature `id` reports: a consumer of it, an occurrence that
/// owns it, or its absence; `None` when it can go.
pub open spec fn delete_fault(d: CadDocument, id: FeatureId) -> Option<DocumentFault> {
    match first_dependent(d.features@, id, 0) {
        Some(dependent) => Some(DocumentFault::FeatureInUse { id, dependent }),
        None => match assembly_owning(d.assemblies@, id, 0) {
            Some((a, o, _)) => Some(
                DocumentFault::FeatureInAssembly {
                    id,
                    assembly: d.assemblies@[a].id,
                    occurrence: d.assemblies@[a].occurrences@[o].id,
                },
            ),
            None => if feature_index(d.features@, id, 0) is None {
                Some(DocumentFault::FeatureNotFound(id))
            } else {
                None
            },
        },
    }
}

/// The first position, from `o` on, of an occurrence with id `id`.
pub open spec fn occurrence_index(occs: Seq<OccurrenceRecord>, id: ComponentOccurrenceId, o: int) -> Option<int>
    decreases occs.len() - o,
{
    if o < 0 || o >= occs.len() {
        None
    } else if occs[o].id == id {
        Some(o)
    } else {
        occurrence_index(occs, id, o + 1)
    }
}

/// The occurrence lists of the assemblies, in order.
pub open spec fn occurrence_lists(asms: Seq<AssemblyRecord>) -> Seq<Seq<OccurrenceRecord>> {
    asms.map_values(|a: AssemblyRecord| a.occurrences@)
}

/// `suppressed_from`, read off the occurrence lists alone.
pub open spec fn suppressed_lists(ls: Seq<Seq<OccurrenceRecord>>, a: int) -> Result<Set<FeatureId>, AssemblyError>
    decreases ls.len() - a,
{
    if a < 0 || a >= ls.len() {
        Ok(Set::empty())
    } else {
        match effective_suppression_of(ls[a]) {
            Err(e) => Err(e),
            Ok(m) => match suppressed_lists(ls, a + 1) {
                Err(e) => Err(e),
                Ok(rest) => Ok(suppressed_in(ls[a], m).union(rest)),
            },
        }
    }
}

pub proof fn lemma_suppressed_lists(asms: Seq<AssemblyRecord>, a: int)
    requires
        0 <= a,
    ensures
        suppressed_from(asms, a) == suppressed_lists(occurrence_lists(asms), a),
    decreases asms.len() - a,
{
    if a < asms.len() {
        lemma_suppressed_lists(asms, a + 1);
        assert(occurrence_lists(asms)[a] == asms[a].occurrences@);
    }
}

/// The occurrence lists with occurrence `o` of assembly `a` directly
/// suppressed (`s`) or not.
pub open spec fn with_direct_suppression(ls: Seq<Seq<OccurrenceRecord>>, a: int, o: int, s: bool) -> Seq<
    Seq<OccurrenceRecord>,
> {
    ls.update(a, ls[a].update(o, OccurrenceRecord { suppressed: s, ..ls[a][o] }))
}

/// What a suppression state of the occurrences gives: a hierarchy that
/// does not resolve, or an active feature that consumes a suppressed one.
pub open spec fn suppression_fault(nodes: Seq<FeatureNode>, ls: Seq<Seq<OccurrenceRecord>>) -> Option<DocumentFault> {
    match suppressed_lists(ls, 0) {
        Err(e) => Some(DocumentFault::Assembly(e)),
        Ok(s) => dependency_problem_from(nodes, s, 0),
    }
}

/// `y` is `x` with only the occurrences of assembly `a` changed, to `occs`.
pub open spec fn occurrences_replaced(x: Seq<AssemblyRecord>, y: Seq<AssemblyRecord>, a: int, occs: Seq<OccurrenceRecord>) -> bool {
    &&& x.len() == y.len()
    &&& forall|b: int| 0 <= b < x.len() && b != a ==> #[trigger] y[b] == x[b]
    &&& y[a].id == x[a].id
    &&& y[a].name == x[a].name
    &&& y[a].definitions == x[a].definitions
    &&& y[a].mates == x[a].mates
    &&& y[a].occurrences@ == occs
}

fn link_uses(link: &FeatureLink, id: FeatureId) -> (r: bool)
    ensures
        r == link.deps().contains(id),
{
    let deps = link.dependencies();
    let mut j: usize = 0;
    while j < deps.len()
        invariant
            j <= deps@.len(),
            deps@ == link.deps(),
            forall|q: int| 0 <= q < j ==> deps@[q] != id,
        decreases deps@.len() - j,
    {
        if deps[j] == id {
            proof {
                assert(deps@[j as int] == id);
            }
            return true;
        }
        j += 1;
    }
    false
}

fn occurrence_at(occs: &Vec<OccurrenceRecord>, id: ComponentOccurrenceId) -> (r: Option<usize>)
    ensures
        match occurrence_index(occs@, id, 0) {
            Some(o) => r matches Some(u) && u == o && o < occs@.len(),
            None => r is None,
        },
{
    let mut o: usize = 0;
    while o < occs.len()
        invariant
            o <= occs@.len(),
            occurrence_index(occs@, id, 0) == occurrence_index(occs@, id, o as int),
        decreases occs@.len() - o,
    {
        if occs[o].id == id {
            return Some(o);
        }
        o += 1;
    }
    None
}

fn assembly_at(asms: &Vec<AssemblyRecord>, id: AssemblyId) -> (r: Option<usize>)
    ensures
        match assembly_index(asms@, id, 0) {
            Some(a) => r matches Some(u) && u == a && a < asms@.len(),
            None => r is None,
        },
{
    let mut a: usize = 0;
    while a < asms.len()
        invariant
            a <= asms@.len(),
            assembly_index(asms@, id, 0) == assembly_index(asms@, id, a as int),
        decreases asms@.len() - a,
    {
        if asms[a].id == id {
            return Some(a);
        }
        a += 1;
    }
    None
}

impl CadDocument {
    /// Deletes feature `id`, refusing while a feature consumes it or an
    /// assembly occurrence owns it.
    pub fn delete_feature(&mut self, id: FeatureId) -> (r: Result<(), DocumentError>)
        ensures
            match delete_fault(*old(self), id) {
                Some(f) => r matches Err(e) && e@ == f && *final(self) == *old(self),
                None => r is Ok && final(self).features@ == old(self).features@.remove(
                    feature_index(old(self).features@, id, 0)->Some_0,
                ) && final(self).assemblies == old(self).assemblies && final(self).name
                    == old(self).name && final(self).next_id == old(self).next_id
                    && final(self).next_assembly_id == old(self).next_assembly_id,
            },
    {
        match self.delete_feature_node(id) {
            Ok(_) => Ok(()),
            Err(e) => Err(e),
        }
    }

    /// `delete_feature`, handing back the position and the removed feature.
    fn delete_feature_node(&mut self, id: FeatureId) -> (r: Result<(usize, FeatureNode), DocumentError>)
        ensures
            match delete_fault(*old(self), id) {
                Some(f) => r matches Err(e) && e@ == f && *final(self) == *old(self),
                None => r matches Ok((i, node)) && i == feature_index(old(self).features@, id, 0)->Some_0
                    && i < old(self).features@.len() && node == old(self).features@[i as int]
                    && final(self).features@ == old(self).features@.remove(i as int)
                    && final(self).assemblies == old(self).assemblies && final(self).name
                    == old(self).name && final(self).next_id == old(self).next_id
                    && final(self).next_assembly_id == old(self).next_assembly_id,
            },
    {
        let mut i: usize = 0;
        while i < self.features.len()
            invariant
                i <= self.features@.len(),
                first_dependent(self.features@, id, 0) == first_dependent(self.features@, id, i as int),
            decreases self.features@.len() - i,
        {
            if link_uses(&self.features[i].link, id) {
                return Err(DocumentError::FeatureInUse { id, dependent: self.features[i].id });
            }
            i += 1;
        }
        match find_owner(&self.assemblies, id) {
            Some((a, o, _)) => {
                return Err(
                    DocumentError::FeatureInAssembly {
                        id,
                        assembly: self.assemblies[a].id,
                        occurrence: self.assemblies[a].occurrences[o].id,
                    },
                );
            },
            None => {},
        }
        match find_feature(&self.features, id) {
            None => Err(DocumentError::FeatureNotFound(id)),
            Some(index) => {
                let node = self.features.remove(index);
                Ok((index, node))
            },
        }
    }

    /// Deletes assembly `id`.
    pub fn delete_assembly(&mut self, id: AssemblyId) -> (r: Result<(), DocumentError>)
        ensures
            match assembly_index(old(self).assemblies@, id, 0) {
                None => r matches Err(e) && e@ == DocumentFault::AssemblyNotFound(id) && *final(self)
                    == *old(self),
                Some(a) => r is Ok && final(self).assemblies@ == old(self).assemblies@.remove(a)
                    && final(self).features == old(self).features && final(self).name == old(
                    self,
                ).name && final(self).next_id == old(self).next_id && final(self).next_assembly_id
                    == old(self).next_assembly_id,
            },
    {
        match self.delete_assembly_record(id) {
            Ok(_) => Ok(()),
            Err(e) => Err(e),
        }
    }

    /// `delete_assembly`, handing back the position and the removed assembly.
    fn delete_assembly_record(&mut self, id: AssemblyId) -> (r: Result<(usize, AssemblyRecord), DocumentError>)
        ensures
            match assembly_index(old(self).assemblies@, id, 0) {
                None => r matches Err(e) && e@ == DocumentFault::AssemblyNotFound(id) && *final(self)
                    == *old(self),
                Some(a) => r matches Ok((i, removed)) && i == a && a < old(self).assemblies@.len()
                    && removed == old(self).assemblies@[a] && final(self).assemblies@
                    == old(self).assemblies@.remove(a) && final(self).features == old(self).features
                    && final(self).name == old(self).name && final(self).next_id == old(self).next_id
                    && final(self).next_assembly_id == old(self).next_assembly_id,
            },
    {
        match assembly_at(&self.assemblies, id) {
            None => Err(DocumentError::AssemblyNotFound(id)),
            Some(a) => {
                let removed = self.assemblies.remove(a);
                Ok((a, removed))
            },
        }
    }

    /// Replaces the occurrence list of assembly `a` by `occs`.
    fn swap_occurrences(&mut self, a: usize, occs: Vec<OccurrenceRecord>) -> (previous: Vec<OccurrenceRecord>)
        requires
            a < old(self).assemblies@.len(),
        ensures
            previous == old(self).assemblies@[a as int].occurrences,
            occurrences_replaced(old(self).assemblies@, final(self).assemblies@, a as int, occs@),
            final(self).features == old(self).features,
            final(self).name == old(self).name,
            final(self).next_id == old(self).next_id,
            final(self).next_assembly_id == old(self).next_assembly_id,
    {
        let mut assembly = self.assemblies.remove(a);
        let mut previous = occs;
        std::mem::swap(&mut assembly.occurrences, &mut previous);
        self.assemblies.insert(a, assembly);
        previous
    }

    /// Sets whether occurrence `occurrence_id` of assembly `assembly_id` is
    /// directly suppressed; refused, with nothing changed, when the new state
    /// leaves the hierarchy unresolvable or an active feature consuming a
    /// suppressed one.
    pub fn set_occurrence_suppressed(
        &mut self,
        assembly_id: AssemblyId,
        occurrence_id: ComponentOccurrenceId,
        suppressed: bool,
    ) -> (r: Result<(), DocumentError>)
        ensures
            match assembly_index(old(self).assemblies@, assembly_id, 0) {
                None => r matches Err(e) && e@ == DocumentFault::AssemblyNotFound(assembly_id)
                    && *final(self) == *old(self),
                Some(a) => match occurrence_index(old(self).assemblies@[a].occurrences@, occurrence_id, 0) {
                    None => r matches Err(e) && e@ == (DocumentFault::OccurrenceNotFound {
                        assembly: assembly_id,
                        occurrence: occurrence_id,
                    }) && *final(self) == *old(self),
                    Some(o) => {
                        let ls = with_direct_suppression(occurrence_lists(old(self).assemblies@), a, o, suppressed);
                        &&& final(self).features == old(self).features
                        &&& final(self).name == old(self).name
                        &&& final(self).next_id == old(self).next_id
                        &&& final(self).next_assembly_id == old(self).next_assembly_id
                        &&& match suppression_fault(old(self).features@, ls) {
                            Some(f) => r matches Err(e) && e@ == f && occurrences_replaced(
                                old(self).assemblies@,
                                final(self).assemblies@,
                                a,
                                old(self).assemblies@[a].occurrences@,
                            ),
                            None => r is Ok && occurrences_replaced(
                                old(self).assemblies@,
                                final(self).assemblies@,
                                a,
                                ls[a],
                            ),
                        }
                    },
                },
            },
    {
        let a = match assembly_at(&self.assemblies, assembly_id) {
            None => {
                return Err(DocumentError::AssemblyNotFound(assembly_id));
            },
            Some(a) => a,
        };
        let o = match occurrence_at(&self.assemblies[a].occurrences, occurrence_id) {
            None => {
                return Err(DocumentError::OccurrenceNotFound { assembly: assembly_id, occurrence: occurrence_id });
            },
            Some(o) => o,
        };
        let ghost before = self.assemblies@;
        let ghost ls = with_direct_suppression(occurrence_lists(before), a as int, o as int, suppressed);
        let mut occs = self.swap_occurrences(a, Vec::new());
        let mut record = occs.remove(o);
        let previous = record.suppressed;
        record.suppressed = suppressed;
        occs.insert(o, record);
        let occs = self.swap_occurrences(a, occs);
        proof {
            assert(occurrence_lists(self.assemblies@) =~= ls) by {
                assert forall|b: int| 0 <= b < ls.len() implies occurrence_lists(self.assemblies@)[b] == ls[b] by {
                    if b == a {
                        assert(self.assemblies@[b].occurrences@ =~= ls[b]);
                    }
                }
            }
            lemma_suppressed_lists(self.assemblies@, 0);
        }
        let check = match suppressed_features(&self.assemblies) {
            Err(e) => Err(DocumentError::Assembly(e)),
            Ok(v) => check_suppressed_dependencies(&self.features, &v),
        };
        match check {
            Ok(()) => {
                proof {
                    assert(self.assemblies@[a as int].occurrences@ =~= ls[a as int]);
                }
                Ok(())
            },
            Err(e) => {
                let mut occs = self.swap_occurrences(a, occs);
                let mut record = occs.remove(o);
                record.suppressed = previous;
                occs.insert(o, record);
                let _ = self.swap_occurrences(a, occs);
                proof {
                    assert(self.assemblies@[a as int].occurrences@ =~= before[a as int].occurrences@);
                }
                Err(e)
            },
        }
    }
}

/// What a sketch plane's source reports: a datum that is missing or not a
/// datum plane, or a face whose feature is missing or creates no solid.
pub open spec fn plane_source_fault(nodes: Seq<FeatureNode>, plane: SketchPlane) -> Option<DocumentFault> {
    match plane {
        SketchPlane::DatumPlane { datum_id } => match feature_index(nodes, datum_id, 0) {
            None => Some(DocumentFault::FeatureNotFound(datum_id)),
            Some(k) => if nodes[k].link is DatumPlane {
                None
            } else {
                Some(DocumentFault::PrimitiveMismatch { id: datum_id, expected: "datum plane"@ })
            },
        },
        SketchPlane::PlanarFace { feature_id } => match feature_index(nodes, feature_id, 0) {
            None => Some(DocumentFault::FeatureNotFound(feature_id)),
            Some(k) => if nodes[k].link.is_reference() {
                Some(DocumentFault::PrimitiveMismatch { id: feature_id, expected: "solid feature"@ })
            } else {
                None
            },
        },
        _ => None,
    }
}

/// What building the dependency graph of `nodes` reports, if anything.
pub open spec fn graph_fault(nodes: Seq<FeatureNode>) -> Option<DocumentFault> {
    match graph_problem(nodes) {
        Some(f) => Some(f),
        None => if schedule(nodes).len() == nodes.len() {
            None
        } else {
            Some(DocumentFault::DependencyCycle { cycle: unplaced(nodes, schedule(nodes)) })
        },
    }
}

/// The features with sketch `i` moved onto `plane`.
pub open spec fn with_sketch_plane(nodes: Seq<FeatureNode>, i: int, plane: SketchPlane) -> Seq<FeatureNode> {
    nodes.update(i, FeatureNode { link: FeatureLink::Sketch { plane }, ..nodes[i] })
}

/// What moving sketch `id` onto `plane` reports: the plane's source, a
/// missing feature or one that is no sketch, or the graph it would give.
pub open spec fn sketch_plane_fault(nodes: Seq<FeatureNode>, id: FeatureId, plane: SketchPlane) -> Option<
    DocumentFault,
> {
    if plane_source_fault(nodes, plane) is Some {
        plane_source_fault(nodes, plane)
    } else {
        match feature_index(nodes, id, 0) {
            None => Some(DocumentFault::FeatureNotFound(id)),
            Some(i) => if !(nodes[i].link is Sketch) {
                Some(DocumentFault::PrimitiveMismatch { id, expected: "sketch"@ })
            } else {
                graph_fault(with_sketch_plane(nodes, i, plane))
            },
        }
    }
}

impl CadDocument {
    /// Gives feature `i` the link `link`, handing back its old one.
    fn relink(&mut self, i: usize, link: FeatureLink) -> (previous: FeatureLink)
        requires
            i < old(self).features@.len(),
        ensures
            final(self).features@ == old(self).features@.update(
                i as int,
                FeatureNode { link: link, ..old(self).features@[i as int] },
            ),
            previous == old(self).features@[i as int].link,
            final(self).assemblies == old(self).assemblies,
            final(self).name == old(self).name,
            final(self).next_id == old(self).next_id,
            final(self).next_assembly_id == old(self).next_assembly_id,
    {
        let node = self.features.remove(i);
        let FeatureNode { id, link: previous, kind, name, visible, material } = node;
        self.features.insert(i, FeatureNode { id, link, kind, name, visible, material });
        proof {
            assert(self.features@ =~= old(self).features@.update(
                i as int,
                FeatureNode { link: link, ..old(self).features@[i as int] },
            ));
        }
        previous
    }

    /// Moves sketch `id` onto `plane`; refused, with nothing changed, when
    /// the plane's source is unusable or the move would make the dependency
    /// graph invalid.
    pub fn set_sketch_plane(&mut self, id: FeatureId, plane: SketchPlane) -> (r: Result<(), DocumentError>)
        ensures
            final(self).assemblies == old(self).assemblies,
            final(self).name == old(self).name,
            final(self).next_id == old(self).next_id,
            final(self).next_assembly_id == old(self).next_assembly_id,
            match sketch_plane_fault(old(self).features@, id, plane) {
                Some(f) => r matches Err(e) && e@ == f && final(self).features@ == old(self).features@,
                None => r is Ok && final(self).features@ == with_sketch_plane(
                    old(self).features@,
                    feature_index(old(self).features@, id, 0)->Some_0,
                    plane,
                ),
            },
    {
        match plane {
            SketchPlane::DatumPlane { datum_id } => match find_feature(&self.features, datum_id) {
                None => {
                    return Err(DocumentError::FeatureNotFound(datum_id));
                },
                Some(k) => {
                    if !matches!(self.features[k].link, FeatureLink::DatumPlane { .. }) {
                        return Err(DocumentError::PrimitiveMismatch { id: datum_id, expected: "datum plane" });
                    }
                },
            },
            SketchPlane::PlanarFace { feature_id } => match find_feature(&self.features, feature_id) {
                None => {
                    return Err(DocumentError::FeatureNotFound(feature_id));
                },
                Some(k) => {
                    let reference = match self.features[k].link {
                        FeatureLink::Sketch { .. } | FeatureLink::DatumPlane { .. } | FeatureLink::DatumPoint {
                            ..
                        } => true,
                        _ => false,
                    };
                    if reference {
                        return Err(DocumentError::PrimitiveMismatch { id: feature_id, expected: "solid feature" });
                    }
                },
            },
            _ => {},
        }
        let i = match find_feature(&self.features, id) {
            None => {
                return Err(DocumentError::FeatureNotFound(id));
            },
            Some(i) => i,
        };
        let previous = match self.features[i].link {
            FeatureLink::Sketch { plane } => plane,
            _ => {
                return Err(DocumentError::PrimitiveMismatch { id, expected: "sketch" });
            },
        };
        let ghost before = self.features@;
        let _ = self.relink(i, FeatureLink::Sketch { plane });
        proof {
            assert(self.features@ =~= with_sketch_plane(before, i as int, plane));
        }
        match self.feature_graph() {
            Ok(_) => Ok(()),
            Err(e) => {
                let _ = self.relink(i, FeatureLink::Sketch { plane: previous });
                proof {
                    assert(self.features@ =~= before);
                }
                Err(e)
            },
        }
    }
}

// ---------------------------------------------------------------------------
// Sketch replacement
// ---------------------------------------------------------------------------

/// What the host's sketch solver and binary64 checks found of a replacement
/// sketch: its own definition, the solve of its region, and whether the
/// solved region has hole loops.
pub struct SolvedRegionFacts {
    pub definition_fault: Option<DocumentError>,
    pub solve_fault: Option<DocumentError>,
    pub has_holes: bool,
}

/// What a feature consuming features `deps` reports when assembly
/// suppression excludes one of them, or the hierarchy does not resolve.
pub open spec fn suppressed_dep_fault(d: CadDocument, deps: Seq<FeatureId>, feature: FeatureId) -> Option<DocumentFault> {
    match suppressed_from(d.assemblies@, 0) {
        Err(e) => Some(DocumentFault::Assembly(e)),
        Ok(s) => match first_held(deps, s, 0) {
            Some(x) => Some(DocumentFault::SuppressedFeatureDependency { feature, dependency: x }),
            None => None,
        },
    }
}

/// Whether feature `n` is built from sketch `id`: an extrusion or revolve of
/// it, or a loft through it.
pub open spec fn built_from_sketch(n: FeatureNode, id: FeatureId) -> bool {
    match n.link {
        FeatureLink::SketchProfile { sketch_id } => sketch_id == id,
        FeatureLink::Loft { sketch_ids } => sketch_ids@.contains(id),
        _ => false,
    }
}

/// The first fault, from position `j` on, of a feature built from sketch
/// `id` once the sketch is replaced: a revolve or loft of a region with holes,
/// or the host's verdict on the rebuilt feature.
pub open spec fn dependents_fault(
    nodes: Seq<FeatureNode>,
    id: FeatureId,
    holes: bool,
    faults: Seq<Option<DocumentError>>,
    j: int,
) -> Option<DocumentFault>
    decreases nodes.len() - j,
{
    if j < 0 || j >= nodes.len() {
        None
    } else if built_from_sketch(nodes[j], id) && holes && nodes[j].link is SketchProfile && nodes[j].kind
        == FeatureKind::Revolve {
        Some(DocumentFault::InvalidParameter("a sketch with revolve dependents cannot contain hole loops"@))
    } else if built_from_sketch(nodes[j], id) && holes && nodes[j].link is Loft {
        Some(DocumentFault::InvalidParameter("a sketch with loft dependents cannot contain hole loops"@))
    } else if built_from_sketch(nodes[j], id) && j < faults.len() && faults[j] is Some {
        fault_of(faults[j])
    } else {
        dependents_fault(nodes, id, holes, faults, j + 1)
    }
}

/// What replacing sketch `id` by one on `plane` reports: the host's verdict
/// on the sketch, a suppressed feature it would consume, the solve of its
/// region, a feature built from it that cannot be rebuilt, and a missing
/// sketch.
pub open spec fn sketch_sync_fault(
    d: CadDocument,
    id: FeatureId,
    plane: SketchPlane,
    region: SolvedRegionFacts,
    faults: Seq<Option<DocumentError>>,
) -> Option<DocumentFault> {
    if region.definition_fault is Some {
        fault_of(region.definition_fault)
    } else if suppressed_dep_fault(d, FeatureLink::Sketch { plane }.deps(), id) is Some {
        suppressed_dep_fault(d, FeatureLink::Sketch { plane }.deps(), id)
    } else if region.solve_fault is Some {
        fault_of(region.solve_fault)
    } else if dependents_fault(d.features@, id, region.has_holes, faults, 0) is Some {
        dependents_fault(d.features@, id, region.has_holes, faults, 0)
    } else if feature_index(d.features@, id, 0) is None {
        Some(DocumentFault::FeatureNotFound(id))
    } else {
        None
    }
}

/// The model after sketch `id` is replaced by one on `plane`: that feature
/// becomes a sketch on `plane`, everything else stays.
pub open spec fn sketch_synced(old: CadDocument, new: CadDocument, id: FeatureId, plane: SketchPlane) -> bool {
    let i = feature_index(old.features@, id, 0)->Some_0;
    &&& new.features@ == old.features@.update(
        i,
        FeatureNode { link: FeatureLink::Sketch { plane }, kind: FeatureKind::Sketch, ..old.features@[i] },
    )
    &&& new.assemblies == old.assemblies
    &&& new.name == old.name
    &&& new.next_id == old.next_id
    &&& new.next_assembly_id == old.next_assembly_id
}

fn loft_uses(ids: &Vec<FeatureId>, id: FeatureId) -> (r: bool)
    ensures
        r == ids@.contains(id),
{
    let mut k: usize = 0;
    while k < ids.len()
        invariant
            k <= ids@.len(),
            forall|q: int| 0 <= q < k ==> ids@[q] != id,
        decreases ids@.len() - k,
    {
        if ids[k] == id {
            proof {
                assert(ids@[k as int] == id);
            }
            return true;
        }
        k += 1;
    }
    false
}

impl CadDocument {
    /// Reports a suppressed feature among `deps` for feature `feature`.
    fn check_suppressed_deps(&self, deps: &Vec<FeatureId>, feature: FeatureId) -> (r: Result<(), DocumentError>)
        ensures
            match suppressed_dep_fault(*self, deps@, feature) {
                Some(f) => r matches Err(e) && e@ == f,
                None => r is Ok,
            },
    {
        let suppressed = match suppressed_features(&self.assemblies) {
            Err(e) => {
                return Err(DocumentError::Assembly(e));
            },
            Ok(v) => v,
        };
        let ghost s = suppressed@.to_set();
        let mut j: usize = 0;
        while j < deps.len()
            invariant
                j <= deps@.len(),
                s == suppressed@.to_set(),
                suppressed_from(self.assemblies@, 0) == Ok::<Set<FeatureId>, AssemblyError>(s),
                first_held(deps@, s, 0) == first_held(deps@, s, j as int),
            decreases deps@.len() - j,
        {
            let d = deps[j];
            let mut k: usize = 0;
            let mut held = false;
            while k < suppressed.len()
                invariant
                    k <= suppressed@.len(),
                    held == exists|q: int| 0 <= q < k && suppressed@[q] == d,
                decreases suppressed@.len() - k,
            {
                if suppressed[k] == d {
                    held = true;
                }
                k += 1;
            }
            if held {
                proof {
                    let q = choose|q: int| 0 <= q < suppressed@.len() && suppressed@[q] == d;
                    assert(s.contains(suppressed@[q]));
                }
                return Err(DocumentError::SuppressedFeatureDependency { feature, dependency: d });
            }
            proof {
                if s.contains(d) {
                    let q = choose|q: int| 0 <= q < suppressed@.len() && suppressed@[q] == d;
                    assert(false);
                }
            }
            j += 1;
        }
        Ok(())
    }

    /// Replaces sketch `id` by a sketch on `plane` whose region the host has
    /// solved, after checking every feature built from it (extrusions,
    /// revolves and lofts) against the new region: all of them are checked
    /// before anything changes, and a refusal changes nothing. `faults` holds,
    /// by feature position, the host's verdict on each rebuilt feature.
    pub fn replace_sketch_and_sync(
        &mut self,
        id: FeatureId,
        plane: SketchPlane,
        region: &SolvedRegionFacts,
        faults: &Vec<Option<DocumentError>>,
    ) -> (r: Result<(), DocumentError>)
        ensures
            match sketch_sync_fault(*old(self), id, plane, *region, faults@) {
                Some(f) => r matches Err(e) && e@ == f && *final(self) == *old(self),
                None => r is Ok && sketch_synced(*old(self), *final(self), id, plane),
            },
    {
        if let Some(e) = take_fault(&region.definition_fault) {
            return Err(e);
        }
        let new_link = FeatureLink::Sketch { plane };
        let deps = new_link.dependencies();
        match self.check_suppressed_deps(&deps, id) {
            Err(e) => {
                return Err(e);
            },
            Ok(()) => {},
        }
        if let Some(e) = take_fault(&region.solve_fault) {
            return Err(e);
        }
        let mut j: usize = 0;
        while j < self.features.len()
            invariant
                *self == *old(self),
                region.definition_fault is None,
                region.solve_fault is None,
                suppressed_dep_fault(*self, FeatureLink::Sketch { plane }.deps(), id) is None,
                j <= self.features@.len(),
                dependents_fault(self.features@, id, region.has_holes, faults@, 0) == dependents_fault(
                    self.features@,
                    id,
                    region.has_holes,
                    faults@,
                    j as int,
                ),
            decreases self.features@.len() - j,
        {
            let built = match &self.features[j].link {
                FeatureLink::SketchProfile { sketch_id } => *sketch_id == id,
                FeatureLink::Loft { sketch_ids } => loft_uses(sketch_ids, id),
                _ => false,
            };
            if built && region.has_holes {
                let revolve = matches!(self.features[j].link, FeatureLink::SketchProfile { .. })
                    && self.features[j].kind.same(FeatureKind::Revolve);
                if revolve {
                    return Err(
                        DocumentError::InvalidParameter(
                            "a sketch with revolve dependents cannot contain hole loops".to_owned(),
                        ),
                    );
                }
                if matches!(self.features[j].link, FeatureLink::Loft { .. }) {
                    return Err(
                        DocumentError::InvalidParameter(
                            "a sketch with loft dependents cannot contain hole loops".to_owned(),
                        ),
                    );
                }
            }
            if built && j < faults.len() {
                if let Some(e) = take_fault(&faults[j]) {
                    return Err(e);
                }
            }
            j += 1;
        }
        let i = match find_feature(&self.features, id) {
            None => {
                return Err(DocumentError::FeatureNotFound(id));
            },
            Some(i) => i,
        };
        let node = self.features.remove(i);
        let FeatureNode { id: nid, link: _, kind: _, name, visible, material } = node;
        self.features.insert(i, FeatureNode { id: nid, link: new_link, kind: FeatureKind::Sketch, name, visible, material });
        proof {
            assert(self.features@ =~= old(self).features@.update(
                i as int,
                FeatureNode { link: FeatureLink::Sketch { plane }, kind: FeatureKind::Sketch, ..old(self).features@[i as int] },
            ));
        }
        Ok(())
    }
}

// ---------------------------------------------------------------------------
// Model commands
// ---------------------------------------------------------------------------

/// What the host's binary64 checks found of one command's own values: the
/// new feature's definition (dimensions, profile, solved sketch region) and
/// its placement. A command that carries no such values gets `None` for both.
pub struct CommandFacts {
    pub definition_fault: Option<DocumentError>,
    pub placement_fault: Option<DocumentError>,
}

/// A model command, as the model's structure sees it.
pub enum ModelCommandRecord {
    /// Creates a feature of kind `kind` with link `link`, named `name` (or
    /// after its kind when blank); its geometry and colour stay with the host.
    Create { link: FeatureLink, kind: FeatureKind, name: String },
    /// Copies feature `id` under `name` (or "`<its name>` copy" when blank).
    Duplicate { id: FeatureId, name: String },
    Rename { id: FeatureId, name: String },
    SetVisibility { id: FeatureId, visible: bool },
    /// Gives a solid feature the material `name`; the density is the host's.
    SetMaterial { id: FeatureId, name: String },
    ClearMaterial { id: FeatureId },
    /// Moves or rotates feature `id`; the values are the host's.
    Place { id: FeatureId },
    /// Gives feature `id`, which must be of kind `kind`, new dimensions (a
    /// resize, a datum offset, a chamfer distance or a fillet radius); the
    /// values are the host's.
    Reshape { id: FeatureId, kind: FeatureKind },
    /// Creates a chamfer (or, with `fillet`, a fillet) named `name` on edges
    /// whose owning features are `edge_sources`; the source is then hidden.
    /// The edges themselves and the distance or radius are the host's.
    CreateEdgeModifier { fillet: bool, name: String, edge_sources: Vec<FeatureId> },
    Delete { id: FeatureId },
    DeleteAssembly { id: AssemblyId },
    SetOccurrenceSuppressed { assembly_id: AssemblyId, occurrence_id: ComponentOccurrenceId, suppressed: bool },
    SetSketchPlane { id: FeatureId, plane: SketchPlane },
}

/// The source a new feature is built from: the sketch a profile feature
/// extrudes or revolves must exist and be a sketch.
pub open spec fn create_source_fault(nodes: Seq<FeatureNode>, link: FeatureLink) -> Option<DocumentFault> {
    match link {
        FeatureLink::SketchProfile { sketch_id } => match feature_index(nodes, sketch_id, 0) {
            None => Some(DocumentFault::FeatureNotFound(sketch_id)),
            Some(k) => if nodes[k].link is Sketch {
                None
            } else {
                Some(DocumentFault::PrimitiveMismatch { id: sketch_id, expected: "sketch"@ })
            },
        },
        _ => None,
    }
}

/// What creating a feature with link `link` reports: its source, the host's
/// verdict on its definition, a consumed feature that assembly suppression
/// excludes, the host's verdict on its placement, and an exhausted id space.
pub open spec fn create_fault(d: CadDocument, link: FeatureLink, facts: CommandFacts) -> Option<DocumentFault> {
    if create_source_fault(d.features@, link) is Some {
        create_source_fault(d.features@, link)
    } else if facts.definition_fault is Some {
        fault_of(facts.definition_fault)
    } else {
        match suppressed_from(d.assemblies@, 0) {
            Err(e) => Some(DocumentFault::Assembly(e)),
            Ok(s) => if first_held(link.deps(), s, 0) is Some {
                Some(
                    DocumentFault::SuppressedFeatureDependency {
                        feature: d.next_id,
                        dependency: first_held(link.deps(), s, 0)->0,
                    },
                )
            } else if facts.placement_fault is Some {
                fault_of(facts.placement_fault)
            } else if d.next_id == u64::MAX {
                Some(DocumentFault::IdOverflow)
            } else {
                None
            },
        }
    }
}

/// Deleting feature `id` took `old` to `new` with result `r`.
pub open spec fn deleted_feature(old: CadDocument, new: CadDocument, id: FeatureId, r: Result<Option<FeatureId>, DocumentError>) -> bool {
    match delete_fault(old, id) {
        Some(f) => r matches Err(e) && e@ == f && new == old,
        None => r == Ok::<Option<FeatureId>, DocumentError>(None) && new.features@ == old.features@.remove(
            feature_index(old.features@, id, 0)->Some_0,
        ) && new.assemblies == old.assemblies && new.name == old.name && new.next_id == old.next_id
            && new.next_assembly_id == old.next_assembly_id,
    }
}

/// Deleting assembly `id` took `old` to `new` with result `r`.
pub open spec fn deleted_assembly(old: CadDocument, new: CadDocument, id: AssemblyId, r: Result<Option<FeatureId>, DocumentError>) -> bool {
    match assembly_index(old.assemblies@, id, 0) {
        None => r matches Err(e) && e@ == DocumentFault::AssemblyNotFound(id) && new == old,
        Some(a) => r == Ok::<Option<FeatureId>, DocumentError>(None) && new.assemblies@ == old.assemblies@.remove(a)
            && new.features == old.features && new.name == old.name && new.next_id == old.next_id
            && new.next_assembly_id == old.next_assembly_id,
    }
}

/// Setting direct suppression took `old` to `new` with result `r`.
pub open spec fn suppression_set(
    old: CadDocument,
    new: CadDocument,
    assembly_id: AssemblyId,
    occurrence_id: ComponentOccurrenceId,
    suppressed: bool,
    r: Result<Option<FeatureId>, DocumentError>,
) -> bool {
    match assembly_index(old.assemblies@, assembly_id, 0) {
        None => r matches Err(e) && e@ == DocumentFault::AssemblyNotFound(assembly_id) && new == old,
        Some(a) => match occurrence_index(old.assemblies@[a].occurrences@, occurrence_id, 0) {
            None => r matches Err(e) && e@ == (DocumentFault::OccurrenceNotFound {
                assembly: assembly_id,
                occurrence: occurrence_id,
            }) && new == old,
            Some(o) => {
                let ls = with_direct_suppression(occurrence_lists(old.assemblies@), a, o, suppressed);
                &&& new.features == old.features
                &&& new.name == old.name
                &&& new.next_id == old.next_id
                &&& new.next_assembly_id == old.next_assembly_id
                &&& match suppression_fault(old.features@, ls) {
                    Some(f) => r matches Err(e) && e@ == f && occurrences_replaced(
                        old.assemblies@,
                        new.assemblies@,
                        a,
                        old.assemblies@[a].occurrences@,
                    ),
                    None => r == Ok::<Option<FeatureId>, DocumentError>(None) && occurrences_replaced(
                        old.assemblies@,
                        new.assemblies@,
                        a,
                        ls[a],
                    ),
                }
            },
        },
    }
}

/// Moving a sketch onto a plane took `old` to `new` with result `r`.
pub open spec fn sketch_plane_set(old: CadDocument, new: CadDocument, id: FeatureId, plane: SketchPlane, r: Result<Option<FeatureId>, DocumentError>) -> bool {
    &&& new.assemblies == old.assemblies
    &&& new.name == old.name
    &&& new.next_id == old.next_id
    &&& new.next_assembly_id == old.next_assembly_id
    &&& match sketch_plane_fault(old.features@, id, plane) {
        Some(f) => r matches Err(e) && e@ == f && new.features@ == old.features@,
        None => r == Ok::<Option<FeatureId>, DocumentError>(None) && new.features@ == with_sketch_plane(
            old.features@,
            feature_index(old.features@, id, 0)->Some_0,
            plane,
        ),
    }
}

/// The feature a creation appends: the next id, the link and kind given,
/// the name normalised (the kind's label when blank), shown, no material.
pub open spec fn created_node(n: FeatureNode, id: FeatureId, link: FeatureLink, kind: FeatureKind, name: Seq<char>) -> bool {
    &&& n.id == id
    &&& n.link == link
    &&& n.kind == kind
    &&& n.name@ == normalized(name, kind.label_text())
    &&& n.visible
    &&& n.material is None
}

/// `new` is `old` with one feature appended, the next id advanced, and the
/// rest unchanged.
pub open spec fn appended(old: CadDocument, new: CadDocument) -> bool {
    &&& new.features@.len() == old.features@.len() + 1
    &&& new.features@.drop_last() == old.features@
    &&& new.next_id == old.next_id + 1
    &&& new.assemblies == old.assemblies
    &&& new.name == old.name
    &&& new.next_assembly_id == old.next_assembly_id
}

/// Creating a feature took `old` to `new` with result `r`.
pub open spec fn feature_created(
    old: CadDocument,
    new: CadDocument,
    link: FeatureLink,
    kind: FeatureKind,
    name: Seq<char>,
    facts: CommandFacts,
    r: Result<Option<FeatureId>, DocumentError>,
) -> bool {
    match create_fault(old, link, facts) {
        Some(f) => r matches Err(e) && e@ == f && new == old,
        None => r == Ok::<Option<FeatureId>, DocumentError>(Some(old.next_id)) && appended(old, new)
            && created_node(new.features@.last(), old.next_id, link, kind, name),
    }
}

/// The name a copy asks for: the one given, or "`<source>` copy" when it is blank.
pub open spec fn copy_name(source: Seq<char>, given: Seq<char>) -> Seq<char> {
    if trimmed(given).len() == 0 {
        source + " copy"@
    } else {
        given
    }
}

/// Duplicating feature `id` as `name` took `old` to `new` with result `r`:
/// the host's verdict on the copy's placement first, then the source's
/// existence, then what creating a feature with the source's link reports.
/// The copy keeps the source's link, kind, visibility and material.
pub open spec fn feature_duplicated(
    old: CadDocument,
    new: CadDocument,
    id: FeatureId,
    name: Seq<char>,
    facts: CommandFacts,
    r: Result<Option<FeatureId>, DocumentError>,
) -> bool {
    if facts.placement_fault is Some {
        r matches Err(e) && fault_of(Some(e)) == fault_of(facts.placement_fault) && new == old
    } else {
        match feature_index(old.features@, id, 0) {
            None => r matches Err(e) && e@ == DocumentFault::FeatureNotFound(id) && new == old,
            Some(k) => {
                let src = old.features@[k];
                match create_fault(old, src.link, facts) {
                    Some(f) => r matches Err(e) && e@ == f && new == old,
                    None => {
                        let n = new.features@.last();
                        &&& r == Ok::<Option<FeatureId>, DocumentError>(Some(old.next_id))
                        &&& appended(old, new)
                        &&& n.id == old.next_id
                        &&& same_link(n.link, src.link)
                        &&& n.kind == src.kind
                        &&& n.name@ == normalized(copy_name(src.name@, name), src.kind.label_text())
                        &&& n.visible == src.visible
                        &&& material_view(n.material) == material_view(src.material)
                    },
                }
            },
        }
    }
}

/// `new` is `old` with only feature `i` changed, and only in its name,
/// visibility or material.
pub open spec fn edited_at(old: CadDocument, new: CadDocument, i: int) -> bool {
    &&& 0 <= i < old.features@.len()
    &&& new.features@.len() == old.features@.len()
    &&& forall|j: int| 0 <= j < old.features@.len() && j != i ==> #[trigger] new.features@[j] == old.features@[j]
    &&& new.features@[i].id == old.features@[i].id
    &&& new.features@[i].link == old.features@[i].link
    &&& new.features@[i].kind == old.features@[i].kind
    &&& new.assemblies == old.assemblies
    &&& new.name == old.name
    &&& new.next_id == old.next_id
    &&& new.next_assembly_id == old.next_assembly_id
}

/// Renaming feature `id` to `name` took `old` to `new` with result `r`.
pub open spec fn feature_renamed(old: CadDocument, new: CadDocument, id: FeatureId, name: Seq<char>, r: Result<Option<FeatureId>, DocumentError>) -> bool {
    match feature_index(old.features@, id, 0) {
        None => r matches Err(e) && e@ == DocumentFault::FeatureNotFound(id) && new == old,
        Some(i) => {
            &&& r == Ok::<Option<FeatureId>, DocumentError>(None)
            &&& edited_at(old, new, i)
            &&& new.features@[i].name@ == normalized(name, "Feature"@)
            &&& new.features@[i].visible == old.features@[i].visible
            &&& new.features@[i].material == old.features@[i].material
        },
    }
}

/// Showing or hiding feature `id` took `old` to `new` with result `r`.
pub open spec fn visibility_set(old: CadDocument, new: CadDocument, id: FeatureId, visible: bool, r: Result<Option<FeatureId>, DocumentError>) -> bool {
    match feature_index(old.features@, id, 0) {
        None => r matches Err(e) && e@ == DocumentFault::FeatureNotFound(id) && new == old,
        Some(i) => {
            &&& r == Ok::<Option<FeatureId>, DocumentError>(None)
            &&& edited_at(old, new, i)
            &&& new.features@[i].name == old.features@[i].name
            &&& new.features@[i].visible == visible
            &&& new.features@[i].material == old.features@[i].material
        },
    }
}

/// What giving feature `id` a material named `name` reports: a blank or
/// over-long name, the host's verdict on the density, a missing feature,
/// or one that creates no solid.
pub open spec fn material_fault(d: CadDocument, id: FeatureId, name: Seq<char>, facts: CommandFacts) -> Option<DocumentFault> {
    if trimmed(name).len() == 0 {
        Some(DocumentFault::InvalidParameter("material name must not be empty"@))
    } else if trimmed(name).len() > MAX_FEATURE_NAME_CHARS {
        Some(DocumentFault::InvalidParameter("material name must not exceed 80 characters"@))
    } else if facts.definition_fault is Some {
        fault_of(facts.definition_fault)
    } else {
        solid_fault(d, id)
    }
}

/// A feature missing, or one that creates no solid.
pub open spec fn solid_fault(d: CadDocument, id: FeatureId) -> Option<DocumentFault> {
    match feature_index(d.features@, id, 0) {
        None => Some(DocumentFault::FeatureNotFound(id)),
        Some(i) => if d.features@[i].link.is_reference() {
            Some(DocumentFault::PrimitiveMismatch { id, expected: "solid feature"@ })
        } else {
            None
        },
    }
}

/// Setting (`Some`, the trimmed name) or clearing (`None`) the material of
/// feature `id` took `old` to `new` with result `r`, when `fault` is what
/// the command reports.
pub open spec fn material_changed(
    old: CadDocument,
    new: CadDocument,
    id: FeatureId,
    fault: Option<DocumentFault>,
    material: Option<Seq<char>>,
    r: Result<Option<FeatureId>, DocumentError>,
) -> bool {
    match fault {
        Some(f) => r matches Err(e) && e@ == f && new == old,
        None => {
            let i = feature_index(old.features@, id, 0)->Some_0;
            &&& r == Ok::<Option<FeatureId>, DocumentError>(None)
            &&& edited_at(old, new, i)
            &&& new.features@[i].name == old.features@[i].name
            &&& new.features@[i].visible == old.features@[i].visible
            &&& material_view(new.features@[i].material) == material
        },
    }
}

/// What moving or rotating feature `id` reports: an occurrence that places
/// it, the host's verdict on the values, or its absence.
pub open spec fn place_fault(d: CadDocument, id: FeatureId, facts: CommandFacts) -> Option<DocumentFault> {
    match assembly_owning(d.assemblies@, id, 0) {
        Some((a, o, _)) => Some(
            DocumentFault::FeatureInAssembly {
                id,
                assembly: d.assemblies@[a].id,
                occurrence: d.assemblies@[a].occurrences@[o].id,
            },
        ),
        None => if facts.placement_fault is Some {
            fault_of(facts.placement_fault)
        } else if feature_index(d.features@, id, 0) is None {
            Some(DocumentFault::FeatureNotFound(id))
        } else {
            None
        },
    }
}

/// What giving feature `id` new dimensions of kind `kind` reports: the
/// host's verdict on the values, a missing feature, or one of another kind.
pub open spec fn reshape_fault(d: CadDocument, id: FeatureId, kind: FeatureKind, facts: CommandFacts) -> Option<DocumentFault> {
    if facts.definition_fault is Some {
        fault_of(facts.definition_fault)
    } else {
        match feature_index(d.features@, id, 0) {
            None => Some(DocumentFault::FeatureNotFound(id)),
            Some(i) => if d.features@[i].kind != kind {
                Some(DocumentFault::PrimitiveMismatch { id, expected: kind.expected_text() })
            } else {
                None
            },
        }
    }
}

/// What the edges of a chamfer or fillet report: none, or owners other
/// than one non-zero feature, or an owner that is missing or creates no solid.
pub open spec fn edge_source_fault(d: CadDocument, sources: Seq<FeatureId>) -> Option<DocumentFault> {
    if sources.len() == 0 {
        Some(DocumentFault::InvalidParameter("edge modifier requires at least one edge"@))
    } else if sources[0] == 0 || exists|i: int| 0 <= i < sources.len() && #[trigger] sources[i] != sources[0] {
        Some(DocumentFault::InvalidParameter("edge modifier edges must belong to one non-zero source feature"@))
    } else {
        solid_fault(d, sources[0])
    }
}

/// The kind of an edge modifier.
pub open spec fn edge_kind(fillet: bool) -> FeatureKind {
    if fillet {
        FeatureKind::Fillet
    } else {
        FeatureKind::Chamfer
    }
}

/// Creating a chamfer or fillet took `old` to `new` with result `r`: the
/// edges' owner checked, then what creating the feature reports; accepted,
/// the feature is appended and its source hidden.
pub open spec fn edge_modifier_created(
    old: CadDocument,
    new: CadDocument,
    fillet: bool,
    name: Seq<char>,
    sources: Seq<FeatureId>,
    facts: CommandFacts,
    r: Result<Option<FeatureId>, DocumentError>,
) -> bool {
    match edge_source_fault(old, sources) {
        Some(f) => r matches Err(e) && e@ == f && new == old,
        None => {
            let link = FeatureLink::EdgeModifier { source: Some(sources[0]) };
            match create_fault(old, link, facts) {
                Some(f) => r matches Err(e) && e@ == f && new == old,
                None => {
                    let i = feature_index(old.features@, sources[0], 0)->Some_0;
                    &&& r == Ok::<Option<FeatureId>, DocumentError>(Some(old.next_id))
                    &&& new.features@.len() == old.features@.len() + 1
                    &&& new.features@.drop_last() == old.features@.update(i, FeatureNode { visible: false, ..old.features@[i] })
                    &&& created_node(new.features@.last(), old.next_id, link, edge_kind(fillet), name)
                    &&& new.next_id == old.next_id + 1
                    &&& new.assemblies == old.assemblies
                    &&& new.name == old.name
                    &&& new.next_assembly_id == old.next_assembly_id
                },
            }
        },
    }
}

/// A command whose accepted change lies with the host alone: refused with
/// `fault`, or accepted with the model as it was.
pub open spec fn checked_only(old: CadDocument, new: CadDocument, fault: Option<DocumentFault>, r: Result<Option<FeatureId>, DocumentError>) -> bool {
    &&& new == old
    &&& match fault {
        Some(f) => r matches Err(e) && e@ == f,
        None => r == Ok::<Option<FeatureId>, DocumentError>(None),
    }
}

/// What applying `command` with the host's `facts` did to `old`, giving
/// `new` and `r`.
pub open spec fn command_applied(
    old: CadDocument,
    new: CadDocument,
    command: ModelCommandRecord,
    facts: CommandFacts,
    r: Result<Option<FeatureId>, DocumentError>,
) -> bool {
    match command {
        ModelCommandRecord::Create { link, kind, name } => feature_created(old, new, link, kind, name@, facts, r),
        ModelCommandRecord::Duplicate { id, name } => feature_duplicated(old, new, id, name@, facts, r),
        ModelCommandRecord::Rename { id, name } => feature_renamed(old, new, id, name@, r),
        ModelCommandRecord::SetVisibility { id, visible } => visibility_set(old, new, id, visible, r),
        ModelCommandRecord::SetMaterial { id, name } => material_changed(
            old,
            new,
            id,
            material_fault(old, id, name@, facts),
            Some(trimmed(name@)),
            r,
        ),
        ModelCommandRecord::ClearMaterial { id } => material_changed(old, new, id, solid_fault(old, id), None, r),
        ModelCommandRecord::Place { id } => checked_only(old, new, place_fault(old, id, facts), r),
        ModelCommandRecord::Reshape { id, kind } => checked_only(old, new, reshape_fault(old, id, kind, facts), r),
        ModelCommandRecord::CreateEdgeModifier { fillet, name, edge_sources } => edge_modifier_created(
            old,
            new,
            fillet,
            name@,
            edge_sources@,
            facts,
            r,
        ),
        ModelCommandRecord::Delete { id } => deleted_feature(old, new, id, r),
        ModelCommandRecord::DeleteAssembly { id } => deleted_assembly(old, new, id, r),
        ModelCommandRecord::SetOccurrenceSuppressed { assembly_id, occurrence_id, suppressed } =>
            suppression_set(old, new, assembly_id, occurrence_id, suppressed, r),
        ModelCommandRecord::SetSketchPlane { id, plane } => sketch_plane_set(old, new, id, plane, r),
    }
}

fn take_fault(e: &Option<DocumentError>) -> (r: Option<DocumentError>)
    ensures
        fault_of(r) == fault_of(*e),
{
    match e {
        Some(x) => Some(x.copy()),
        None => None,
    }
}

impl CadDocument {
    /// Creates a feature of kind `kind` with link `link` and name `name`,
    /// numbered with the next feature id.
    #[verifier::loop_isolation(false)]
    pub fn create_feature(&mut self, link: FeatureLink, kind: FeatureKind, name: &str, facts: &CommandFacts) -> (r: Result<Option<FeatureId>, DocumentError>)
        ensures
            feature_created(*old(self), *final(self), link, kind, name@, *facts, r),
    {
        if let FeatureLink::SketchProfile { sketch_id } = link {
            match find_feature(&self.features, sketch_id) {
                None => {
                    return Err(DocumentError::FeatureNotFound(sketch_id));
                },
                Some(k) => {
                    if !matches!(self.features[k].link, FeatureLink::Sketch { .. }) {
                        return Err(DocumentError::PrimitiveMismatch { id: sketch_id, expected: "sketch" });
                    }
                },
            }
        }
        if let Some(e) = take_fault(&facts.definition_fault) {
            return Err(e);
        }
        let suppressed = match suppressed_features(&self.assemblies) {
            Err(e) => {
                return Err(DocumentError::Assembly(e));
            },
            Ok(v) => v,
        };
        let deps = link.dependencies();
        let ghost s = suppressed@.to_set();
        let mut j: usize = 0;
        while j < deps.len()
            invariant
                j <= deps@.len(),
                deps@ == link.deps(),
                s == suppressed@.to_set(),
                first_held(link.deps(), s, 0) == first_held(link.deps(), s, j as int),
            decreases deps@.len() - j,
        {
            let d = deps[j];
            let mut k: usize = 0;
            let mut held = false;
            while k < suppressed.len()
                invariant
                    k <= suppressed@.len(),
                    held == exists|q: int| 0 <= q < k && suppressed@[q] == d,
                decreases suppressed@.len() - k,
            {
                if suppressed[k] == d {
                    held = true;
                }
                k += 1;
            }
            if held {
                proof {
                    let q = choose|q: int| 0 <= q < suppressed@.len() && suppressed@[q] == d;
                    assert(s.contains(suppressed@[q]));
                }
                return Err(DocumentError::SuppressedFeatureDependency { feature: self.next_id, dependency: d });
            }
            proof {
                if s.contains(d) {
                    let q = choose|q: int| 0 <= q < suppressed@.len() && suppressed@[q] == d;
                    assert(false);
                }
            }
            j += 1;
        }
        if let Some(e) = take_fault(&facts.placement_fault) {
            return Err(e);
        }
        if self.next_id == u64::MAX {
            return Err(DocumentError::IdOverflow);
        }
        let id = self.next_id;
        let label = kind.label();
        let stored = normalized_name(name, label);
        self.features.push(FeatureNode { id, link, kind, name: stored, visible: true, material: None });
        self.next_id = id + 1;
        proof {
            assert(self.features@.drop_last() =~= old(self).features@);
        }
        Ok(Some(id))
    }

    /// Copies feature `id` under `name`, or "`<its name>` copy" when `name`
    /// is blank, with the source's link, kind, visibility and material.
    pub fn duplicate_feature(&mut self, id: FeatureId, name: &str, facts: &CommandFacts) -> (r: Result<Option<FeatureId>, DocumentError>)
        ensures
            feature_duplicated(*old(self), *final(self), id, name@, *facts, r),
    {
        if let Some(e) = take_fault(&facts.placement_fault) {
            return Err(e);
        }
        let k = match find_feature(&self.features, id) {
            None => {
                return Err(DocumentError::FeatureNotFound(id));
            },
            Some(k) => k,
        };
        let ghost src = self.features@[k as int];
        let link = self.features[k].link.copy_link();
        let kind = self.features[k].kind;
        let visible = self.features[k].visible;
        let material = copy_material(&self.features[k].material);
        let (_, start, end) = trim_range(name);
        let wanted = if start == end {
            let mut m = String::new();
            push_str(&mut m, self.features[k].name.as_str());
            push_str(&mut m, " copy");
            proof {
                assert(m@ =~= src.name@ + " copy"@);
            }
            m
        } else {
            name.to_owned()
        };
        proof {
            assert(wanted@ == copy_name(src.name@, name@));
            assert(create_fault(*old(self), link, *facts) == create_fault(*old(self), src.link, *facts));
        }
        let r = self.create_feature(link, kind, wanted.as_str(), facts);
        match r {
            Err(e) => Err(e),
            Ok(x) => {
                let ghost mid = self.features@;
                let n = self.features.pop().unwrap();
                let FeatureNode { id: nid, link: nlink, kind: nkind, name: nname, visible: _, material: _ } = n;
                self.features.push(FeatureNode { id: nid, link: nlink, kind: nkind, name: nname, visible, material });
                proof {
                    assert(self.features@.drop_last() =~= mid.drop_last());
                }
                Ok(x)
            },
        }
    }

    /// Takes feature `i` out of the list.
    fn take_feature(&mut self, i: usize) -> (node: FeatureNode)
        requires
            i < old(self).features@.len(),
        ensures
            node == old(self).features@[i as int],
            final(self).features@ == old(self).features@.remove(i as int),
            final(self).assemblies == old(self).assemblies,
            final(self).name == old(self).name,
            final(self).next_id == old(self).next_id,
            final(self).next_assembly_id == old(self).next_assembly_id,
    {
        self.features.remove(i)
    }

    /// Renames feature `id` to `name`, trimmed and cut to length ("Feature"
    /// when blank).
    pub fn rename_feature(&mut self, id: FeatureId, name: &str) -> (r: Result<Option<FeatureId>, DocumentError>)
        ensures
            feature_renamed(*old(self), *final(self), id, name@, r),
    {
        let i = match find_feature(&self.features, id) {
            None => {
                return Err(DocumentError::FeatureNotFound(id));
            },
            Some(i) => i,
        };
        let stored = normalized_name(name, "Feature");
        let node = self.take_feature(i);
        let FeatureNode { id: nid, link, kind, name: _, visible, material } = node;
        self.features.insert(i, FeatureNode { id: nid, link, kind, name: stored, visible, material });
        proof {
            assert forall|j: int| 0 <= j < old(self).features@.len() && j != i implies #[trigger] self.features@[j]
                == old(self).features@[j] by {
                if j < i {
                    assert(self.features@[j] == old(self).features@.remove(i as int)[j]);
                } else {
                    assert(self.features@[j] == old(self).features@.remove(i as int)[j - 1]);
                }
            }
        }
        Ok(None)
    }

    /// Shows or hides feature `id`.
    pub fn set_feature_visibility(&mut self, id: FeatureId, visible: bool) -> (r: Result<Option<FeatureId>, DocumentError>)
        ensures
            visibility_set(*old(self), *final(self), id, visible, r),
    {
        let i = match find_feature(&self.features, id) {
            None => {
                return Err(DocumentError::FeatureNotFound(id));
            },
            Some(i) => i,
        };
        let node = self.take_feature(i);
        let FeatureNode { id: nid, link, kind, name, visible: _, material } = node;
        self.features.insert(i, FeatureNode { id: nid, link, kind, name, visible, material });
        proof {
            assert forall|j: int| 0 <= j < old(self).features@.len() && j != i implies #[trigger] self.features@[j]
                == old(self).features@[j] by {
                if j < i {
                    assert(self.features@[j] == old(self).features@.remove(i as int)[j]);
                } else {
                    assert(self.features@[j] == old(self).features@.remove(i as int)[j - 1]);
                }
            }
        }
        Ok(None)
    }

    /// Puts `material` on feature `i`, keeping everything else.
    fn put_material(&mut self, i: usize, material: Option<String>)
        requires
            i < old(self).features@.len(),
        ensures
            edited_at(*old(self), *final(self), i as int),
            final(self).features@[i as int].name == old(self).features@[i as int].name,
            final(self).features@[i as int].visible == old(self).features@[i as int].visible,
            final(self).features@[i as int].material == material,
    {
        let node = self.take_feature(i);
        let FeatureNode { id: nid, link, kind, name, visible, material: _ } = node;
        self.features.insert(i, FeatureNode { id: nid, link, kind, name, visible, material });
        proof {
            assert forall|j: int| 0 <= j < old(self).features@.len() && j != i implies #[trigger] self.features@[j]
                == old(self).features@[j] by {
                if j < i {
                    assert(self.features@[j] == old(self).features@.remove(i as int)[j]);
                } else {
                    assert(self.features@[j] == old(self).features@.remove(i as int)[j - 1]);
                }
            }
        }
    }

    /// The position of feature `id` when it exists and creates a solid.
    fn solid_feature(&self, id: FeatureId) -> (r: Result<usize, DocumentError>)
        ensures
            match solid_fault(*self, id) {
                Some(f) => r matches Err(e) && e@ == f,
                None => r matches Ok(i) && feature_index(self.features@, id, 0) == Some(i as int) && i
                    < self.features@.len(),
            },
    {
        match find_feature(&self.features, id) {
            None => Err(DocumentError::FeatureNotFound(id)),
            Some(i) => if self.features[i].link.is_reference_geometry() {
                Err(DocumentError::PrimitiveMismatch { id, expected: "solid feature" })
            } else {
                Ok(i)
            },
        }
    }

    /// Gives solid feature `id` the material `name`, trimmed; the host judges
    /// the density.
    pub fn set_feature_material(&mut self, id: FeatureId, name: &str, facts: &CommandFacts) -> (r: Result<Option<FeatureId>, DocumentError>)
        ensures
            material_changed(
                *old(self),
                *final(self),
                id,
                material_fault(*old(self), id, name@, *facts),
                Some(trimmed(name@)),
                r,
            ),
    {
        let (_, start, end) = trim_range(name);
        if start == end {
            return Err(DocumentError::InvalidParameter("material name must not be empty".to_owned()));
        }
        if end - start > MAX_FEATURE_NAME_CHARS {
            return Err(DocumentError::InvalidParameter("material name must not exceed 80 characters".to_owned()));
        }
        if let Some(e) = take_fault(&facts.definition_fault) {
            return Err(e);
        }
        let i = match self.solid_feature(id) {
            Err(e) => {
                return Err(e);
            },
            Ok(i) => i,
        };
        let stored = normalized_name(name, "");
        self.put_material(i, Some(stored));
        Ok(None)
    }

    /// Takes the material off solid feature `id`.
    pub fn clear_feature_material(&mut self, id: FeatureId) -> (r: Result<Option<FeatureId>, DocumentError>)
        ensures
            material_changed(*old(self), *final(self), id, solid_fault(*old(self), id), None, r),
    {
        let i = match self.solid_feature(id) {
            Err(e) => {
                return Err(e);
            },
            Ok(i) => i,
        };
        self.put_material(i, None);
        Ok(None)
    }

    /// Creates a chamfer or fillet on edges owned by `sources[0]`, which all
    /// the edges must share, and hides that source.
    pub fn create_edge_modifier(&mut self, fillet: bool, name: &str, sources: &Vec<FeatureId>, facts: &CommandFacts) -> (r: Result<Option<FeatureId>, DocumentError>)
        ensures
            edge_modifier_created(*old(self), *final(self), fillet, name@, sources@, *facts, r),
    {
        if sources.len() == 0 {
            return Err(DocumentError::InvalidParameter("edge modifier requires at least one edge".to_owned()));
        }
        let source = sources[0];
        let mut q: usize = 0;
        let mut one = source != 0;
        while q < sources.len()
            invariant
                q <= sources@.len(),
                source == sources@[0],
                one == (source != 0 && forall|t: int| 0 <= t < q ==> sources@[t] == source),
            decreases sources@.len() - q,
        {
            if sources[q] != source {
                one = false;
            }
            q += 1;
        }
        if !one {
            proof {
                if source != 0 {
                    let t = choose|t: int| 0 <= t < sources@.len() && !(sources@[t] == source);
                    assert(sources@[t] != sources@[0]);
                }
            }
            return Err(
                DocumentError::InvalidParameter(
                    "edge modifier edges must belong to one non-zero source feature".to_owned(),
                ),
            );
        }
        let i = match self.solid_feature(source) {
            Err(e) => {
                return Err(e);
            },
            Ok(i) => i,
        };
        let kind = if fillet {
            FeatureKind::Fillet
        } else {
            FeatureKind::Chamfer
        };
        let made = self.create_feature(FeatureLink::EdgeModifier { source: Some(source) }, kind, name, facts);
        match made {
            Err(e) => Err(e),
            Ok(x) => {
                let ghost mid = self.features@;
                let node = self.features.remove(i);
                let FeatureNode { id: nid, link, kind: nkind, name: nname, visible: _, material } = node;
                self.features.insert(i, FeatureNode { id: nid, link, kind: nkind, name: nname, visible: false, material });
                proof {
                    assert(self.features@ =~= mid.update(i as int, FeatureNode { visible: false, ..mid[i as int] }));
                    assert(self.features@.drop_last() =~= old(self).features@.update(
                        i as int,
                        FeatureNode { visible: false, ..old(self).features@[i as int] },
                    ));
                }
                Ok(x)
            },
        }
    }

    /// Checks a move or rotation of feature `id`, whose values the host
    /// judged; the model itself does not change.
    pub fn place_feature(&self, id: FeatureId, facts: &CommandFacts) -> (r: Result<Option<FeatureId>, DocumentError>)
        ensures
            checked_only(*self, *self, place_fault(*self, id, *facts), r),
    {
        match find_owner(&self.assemblies, id) {
            Some((a, o, _)) => {
                return Err(
                    DocumentError::FeatureInAssembly {
                        id,
                        assembly: self.assemblies[a].id,
                        occurrence: self.assemblies[a].occurrences[o].id,
                    },
                );
            },
            None => {},
        }
        if let Some(e) = take_fault(&facts.placement_fault) {
            return Err(e);
        }
        match find_feature(&self.features, id) {
            None => Err(DocumentError::FeatureNotFound(id)),
            Some(_) => Ok(None),
        }
    }

    /// Checks new dimensions for feature `id`, which must be of kind `kind`;
    /// the host judged the values, and the model itself does not change.
    pub fn reshape_feature(&self, id: FeatureId, kind: FeatureKind, facts: &CommandFacts) -> (r: Result<Option<FeatureId>, DocumentError>)
        ensures
            checked_only(*self, *self, reshape_fault(*self, id, kind, *facts), r),
    {
        if let Some(e) = take_fault(&facts.definition_fault) {
            return Err(e);
        }
        match find_feature(&self.features, id) {
            None => Err(DocumentError::FeatureNotFound(id)),
            Some(i) => if !self.features[i].kind.same(kind) {
                Err(DocumentError::PrimitiveMismatch { id, expected: kind.expected() })
            } else {
                Ok(None)
            },
        }
    }

    /// Applies one model command, with what the host's binary64 checks found
    /// of its values; a refused command changes nothing.
    pub fn apply(&mut self, command: ModelCommandRecord, facts: &CommandFacts) -> (r: Result<Option<FeatureId>, DocumentError>)
        ensures
            command_applied(*old(self), *final(self), command, *facts, r),
    {
        match command {
            ModelCommandRecord::Create { link, kind, name } => self.create_feature(link, kind, name.as_str(), facts),
            ModelCommandRecord::Duplicate { id, name } => self.duplicate_feature(id, name.as_str(), facts),
            ModelCommandRecord::Rename { id, name } => self.rename_feature(id, name.as_str()),
            ModelCommandRecord::SetVisibility { id, visible } => self.set_feature_visibility(id, visible),
            ModelCommandRecord::SetMaterial { id, name } => self.set_feature_material(id, name.as_str(), facts),
            ModelCommandRecord::ClearMaterial { id } => self.clear_feature_material(id),
            ModelCommandRecord::Place { id } => self.place_feature(id, facts),
            ModelCommandRecord::Reshape { id, kind } => self.reshape_feature(id, kind, facts),
            ModelCommandRecord::CreateEdgeModifier { fillet, name, edge_sources } => self.create_edge_modifier(
                fillet,
                name.as_str(),
                &edge_sources,
                facts,
            ),
            ModelCommandRecord::Delete { id } => match self.delete_feature(id) {
                Ok(()) => Ok(None),
                Err(e) => Err(e),
            },
            ModelCommandRecord::DeleteAssembly { id } => match self.delete_assembly(id) {
                Ok(()) => Ok(None),
                Err(e) => Err(e),
            },
            ModelCommandRecord::SetOccurrenceSuppressed { assembly_id, occurrence_id, suppressed } =>
                match self.set_occurrence_suppressed(assembly_id, occurrence_id, suppressed) {
                Ok(()) => Ok(None),
                Err(e) => Err(e),
            },
            ModelCommandRecord::SetSketchPlane { id, plane } => match self.set_sketch_plane(id, plane) {
                Ok(()) => Ok(None),
                Err(e) => Err(e),
            },
        }
    }
}

// ---------------------------------------------------------------------------
// Transactions
// ---------------------------------------------------------------------------

/// Two assemblies alike but for which vector holds their occurrences, whose
/// contents agree.
pub open spec fn same_assembly(x: AssemblyRecord, y: AssemblyRecord) -> bool {
    &&& x.id == y.id
    &&& x.name == y.name
    &&& x.definitions == y.definitions
    &&& x.mates == y.mates
    &&& x.occurrences@ == y.occurrences@
}

/// Two models with the same name, counters, features alike one by one, and
/// assemblies compared by `same_assembly`.
pub open spec fn same_model(x: CadDocument, y: CadDocument) -> bool {
    &&& x.name == y.name
    &&& x.next_id == y.next_id
    &&& x.next_assembly_id == y.next_assembly_id
    &&& nodes_alike(x.features@, y.features@)
    &&& x.assemblies@.len() == y.assemblies@.len()
    &&& forall|b: int| 0 <= b < x.assemblies@.len() ==> same_assembly(#[trigger] x.assemblies@[b], y.assemblies@[b])
}

/// The facts the host gave for command `k`; none where it gave none.
pub open spec fn fact_at(facts: Seq<CommandFacts>, k: int) -> CommandFacts {
    if 0 <= k < facts.len() {
        facts[k]
    } else {
        CommandFacts { definition_fault: None, placement_fault: None }
    }
}

/// `states` runs through `commands` in turn, each accepted with result
/// `results[k]`.
pub open spec fn staged_run(
    states: Seq<CadDocument>,
    commands: Seq<ModelCommandRecord>,
    facts: Seq<CommandFacts>,
    results: Seq<Option<FeatureId>>,
) -> bool {
    &&& states.len() == commands.len() + 1
    &&& results.len() == commands.len()
    &&& forall|k: int|
        0 <= k < commands.len() ==> command_applied(
            #[trigger] states[k],
            states[k + 1],
            commands[k],
            fact_at(facts, k),
            Ok(results[k]),
        )
}

/// The ids the created features received, in order.
pub open spec fn created_ids(results: Seq<Option<FeatureId>>) -> Seq<FeatureId>
    decreases results.len(),
{
    if results.len() == 0 {
        Seq::empty()
    } else {
        match results.last() {
            Some(id) => created_ids(results.drop_last()).push(id),
            None => created_ids(results.drop_last()),
        }
    }
}

/// How to take back one accepted command.
enum StepUndo {
    Created,
    Deleted { index: usize, node: FeatureNode },
    DeletedAssembly { index: usize, assembly: AssemblyRecord },
    Suppressed { assembly: usize, occurrence: usize, previous: bool },
    Edited { index: usize, node: FeatureNode },
    CreatedHiding { index: usize, node: FeatureNode },
    Kept,
}

/// `u` takes `after` back to `before`.
spec fn undoes(u: StepUndo, before: CadDocument, after: CadDocument) -> bool {
    match u {
        StepUndo::Created => {
            &&& after.features@.len() == before.features@.len() + 1
            &&& after.features@.drop_last() == before.features@
            &&& before.next_id < u64::MAX
            &&& after.next_id == before.next_id + 1
            &&& after.name == before.name
            &&& after.next_assembly_id == before.next_assembly_id
            &&& after.assemblies == before.assemblies
        },
        StepUndo::Deleted { index, node } => {
            &&& index < before.features@.len()
            &&& before.features@[index as int] == node
            &&& after.features@ == before.features@.remove(index as int)
            &&& after.name == before.name
            &&& after.next_id == before.next_id
            &&& after.next_assembly_id == before.next_assembly_id
            &&& after.assemblies == before.assemblies
        },
        StepUndo::DeletedAssembly { index, assembly } => {
            &&& index < before.assemblies@.len()
            &&& before.assemblies@[index as int] == assembly
            &&& after.assemblies@ == before.assemblies@.remove(index as int)
            &&& after.name == before.name
            &&& after.next_id == before.next_id
            &&& after.next_assembly_id == before.next_assembly_id
            &&& after.features == before.features
        },
        StepUndo::Suppressed { assembly, occurrence, previous } => {
            let a = assembly as int;
            let o = occurrence as int;
            &&& a < before.assemblies@.len()
            &&& o < before.assemblies@[a].occurrences@.len()
            &&& before.assemblies@[a].occurrences@[o].suppressed == previous
            &&& occurrences_replaced(
                before.assemblies@,
                after.assemblies@,
                a,
                before.assemblies@[a].occurrences@.update(
                    o,
                    OccurrenceRecord { suppressed: after.assemblies@[a].occurrences@[o].suppressed, ..before.assemblies@[a].occurrences@[o] },
                ),
            )
            &&& after.name == before.name
            &&& after.next_id == before.next_id
            &&& after.next_assembly_id == before.next_assembly_id
            &&& after.features == before.features
        },
        StepUndo::Edited { index, node } => {
            let i = index as int;
            &&& i < before.features@.len()
            &&& node_alike(node, before.features@[i])
            &&& after.features@.len() == before.features@.len()
            &&& forall|j: int| 0 <= j < before.features@.len() && j != i ==> #[trigger] after.features@[j] == before.features@[j]
            &&& after.name == before.name
            &&& after.next_id == before.next_id
            &&& after.next_assembly_id == before.next_assembly_id
            &&& after.assemblies == before.assemblies
        },
        StepUndo::CreatedHiding { index, node } => {
            let i = index as int;
            &&& i < before.features@.len()
            &&& node_alike(node, before.features@[i])
            &&& after.features@.len() == before.features@.len() + 1
            &&& forall|j: int| 0 <= j < before.features@.len() && j != i ==> #[trigger] after.features@[j] == before.features@[j]
            &&& before.next_id < u64::MAX
            &&& after.next_id == before.next_id + 1
            &&& after.name == before.name
            &&& after.next_assembly_id == before.next_assembly_id
            &&& after.assemblies == before.assemblies
        },
        StepUndo::Kept => after == before,
    }
}

/// A refused command leaves the model as it found it.
pub proof fn lemma_refused_command_changes_nothing(
    old: CadDocument,
    new: CadDocument,
    command: ModelCommandRecord,
    facts: CommandFacts,
    r: Result<Option<FeatureId>, DocumentError>,
)
    requires
        command_applied(old, new, command, facts, r),
        r is Err,
    ensures
        same_model(new, old),
{
    lemma_nodes_alike_refl(old.features@);
    match command {
        ModelCommandRecord::SetOccurrenceSuppressed { assembly_id, occurrence_id, suppressed } => {
            if let Some(a) = assembly_index(old.assemblies@, assembly_id, 0) {
                if occurrence_index(old.assemblies@[a].occurrences@, occurrence_id, 0) is Some {
                    assert forall|b: int| 0 <= b < new.assemblies@.len() implies same_assembly(
                        #[trigger] new.assemblies@[b],
                        old.assemblies@[b],
                    ) by {
                        if b != a {
                            assert(new.assemblies@[b] == old.assemblies@[b]);
                        }
                    }
                }
            }
        },
        _ => {},
    }
}

/// Each of `undos` takes the state after it back to the one before.
spec fn undo_trail(undos: Seq<StepUndo>, states: Seq<CadDocument>) -> bool {
    forall|q: int| 0 <= q < undos.len() ==> undoes(#[trigger] undos[q], states[q], states[q + 1])
}

proof fn lemma_run_extends(
    states: Seq<CadDocument>,
    commands: Seq<ModelCommandRecord>,
    facts: Seq<CommandFacts>,
    results: Seq<Option<FeatureId>>,
    undos: Seq<StepUndo>,
    next: CadDocument,
    command: ModelCommandRecord,
    id: Option<FeatureId>,
    u: StepUndo,
)
    requires
        staged_run(states, commands, facts, results),
        undos.len() == commands.len(),
        undo_trail(undos, states),
        command_applied(states.last(), next, command, fact_at(facts, commands.len() as int), Ok(id)),
        undoes(u, states.last(), next),
    ensures
        staged_run(states.push(next), commands.push(command), facts, results.push(id)),
        undo_trail(undos.push(u), states.push(next)),
        created_ids(results.push(id)) == (match id {
            Some(x) => created_ids(results).push(x),
            None => created_ids(results),
        }),
{
    let s2 = states.push(next);
    let c2 = commands.push(command);
    let r2 = results.push(id);
    assert forall|j: int| 0 <= j < c2.len() implies command_applied(
        #[trigger] s2[j],
        s2[j + 1],
        c2[j],
        fact_at(facts, j),
        Ok(r2[j]),
    ) by {
        if j < commands.len() {
            assert(s2[j] == states[j] && s2[j + 1] == states[j + 1]);
        }
    }
    assert forall|j: int| 0 <= j < undos.len() + 1 implies undoes(#[trigger] undos.push(u)[j], s2[j], s2[j + 1]) by {
        if j < undos.len() {
            assert(s2[j] == states[j] && s2[j + 1] == states[j + 1]);
        }
    }
    assert(r2.drop_last() =~= results);
}

/// What a command's result reads: the id it hands back, or what its error
/// reports.
pub open spec fn outcome_of(r: Result<Option<FeatureId>, DocumentError>) -> Result<Option<FeatureId>, DocumentFault> {
    match r {
        Ok(x) => Ok(x),
        Err(e) => Err(e@),
    }
}

/// A command on a given model, with given host facts, has one outcome: any two
/// runs report the same result and leave the same model.
pub proof fn law_command_outcome_is_determined(
    old: CadDocument,
    n1: CadDocument,
    n2: CadDocument,
    command: ModelCommandRecord,
    facts: CommandFacts,
    r1: Result<Option<FeatureId>, DocumentError>,
    r2: Result<Option<FeatureId>, DocumentError>,
)
    requires
        command_applied(old, n1, command, facts, r1),
        command_applied(old, n2, command, facts, r2),
    ensures
        outcome_of(r1) == outcome_of(r2),
        same_model(n1, n2),
{
    lemma_nodes_alike_refl(old.features@);
    lemma_nodes_alike_refl(n1.features@);
    let f1 = n1.features@;
    let f2 = n2.features@;
    match command {
        ModelCommandRecord::SetOccurrenceSuppressed { assembly_id, occurrence_id, suppressed } => {
            if let Some(a) = assembly_index(old.assemblies@, assembly_id, 0) {
                if occurrence_index(old.assemblies@[a].occurrences@, occurrence_id, 0) is Some {
                    assert forall|b: int| 0 <= b < n1.assemblies@.len() implies same_assembly(
                        #[trigger] n1.assemblies@[b],
                        n2.assemblies@[b],
                    ) by {
                        if b != a {
                            assert(n1.assemblies@[b] == old.assemblies@[b]);
                            assert(n2.assemblies@[b] == old.assemblies@[b]);
                        }
                    }
                }
            }
        },
        ModelCommandRecord::Create { .. } | ModelCommandRecord::Duplicate { .. }
        | ModelCommandRecord::CreateEdgeModifier { .. } => {
            if r1 is Ok && f1.len() == old.features@.len() + 1 {
                assert forall|j: int| 0 <= j < f1.len() implies node_alike(#[trigger] f1[j], f2[j]) by {
                    if j < old.features@.len() {
                        assert(f1[j] == f1.drop_last()[j]);
                        assert(f2[j] == f2.drop_last()[j]);
                    }
                }
            }
        },
        ModelCommandRecord::Rename { id, .. } | ModelCommandRecord::SetVisibility { id, .. }
        | ModelCommandRecord::SetMaterial { id, .. } | ModelCommandRecord::ClearMaterial { id } => {
            if let Some(i) = feature_index(old.features@, id, 0) {
                assert forall|j: int| 0 <= j < f1.len() implies node_alike(#[trigger] f1[j], f2[j]) by {
                    if j != i && r1 is Ok && r2 is Ok {
                        assert(f1[j] == old.features@[j]);
                        assert(f2[j] == old.features@[j]);
                    }
                }
            }
        },
        _ => {},
    }
}

impl CadDocument {
    /// `apply`, handing back how to take the command back when it is accepted.
    fn apply_step(&mut self, command: ModelCommandRecord, facts: &CommandFacts) -> (r: Result<(Option<FeatureId>, StepUndo), DocumentError>)
        ensures
            command_applied(
                *old(self),
                *final(self),
                command,
                *facts,
                match r {
                    Ok((id, _)) => Ok(id),
                    Err(e) => Err(e),
                },
            ),
            r matches Ok((_, u)) ==> undoes(u, *old(self), *final(self)),
    {
        let saved = match command {
            ModelCommandRecord::Rename { id, .. } | ModelCommandRecord::SetVisibility { id, .. }
            | ModelCommandRecord::SetMaterial { id, .. } | ModelCommandRecord::ClearMaterial { id }
            | ModelCommandRecord::SetSketchPlane { id, .. } => match find_feature(&self.features, id) {
                None => None,
                Some(i) => Some((i, copy_node(&self.features[i]))),
            },
            _ => None,
        };
        match command {
            ModelCommandRecord::Create { link, kind, name } => match self.create_feature(link, kind, name.as_str(), facts) {
                Ok(id) => Ok((id, StepUndo::Created)),
                Err(e) => Err(e),
            },
            ModelCommandRecord::Duplicate { id, name } => match self.duplicate_feature(id, name.as_str(), facts) {
                Ok(x) => Ok((x, StepUndo::Created)),
                Err(e) => Err(e),
            },
            ModelCommandRecord::Rename { id, name } => {
                let r = self.rename_feature(id, name.as_str());
                Self::edit_outcome(r, saved)
            },
            ModelCommandRecord::SetVisibility { id, visible } => {
                let r = self.set_feature_visibility(id, visible);
                Self::edit_outcome(r, saved)
            },
            ModelCommandRecord::SetMaterial { id, name } => {
                let r = self.set_feature_material(id, name.as_str(), facts);
                Self::edit_outcome(r, saved)
            },
            ModelCommandRecord::ClearMaterial { id } => {
                let r = self.clear_feature_material(id);
                Self::edit_outcome(r, saved)
            },
            ModelCommandRecord::Place { id } => match self.place_feature(id, facts) {
                Ok(x) => Ok((x, StepUndo::Kept)),
                Err(e) => Err(e),
            },
            ModelCommandRecord::Reshape { id, kind } => match self.reshape_feature(id, kind, facts) {
                Ok(x) => Ok((x, StepUndo::Kept)),
                Err(e) => Err(e),
            },
            ModelCommandRecord::CreateEdgeModifier { fillet, name, edge_sources } => {
                let saved = if edge_sources.len() > 0 {
                    match find_feature(&self.features, edge_sources[0]) {
                        None => None,
                        Some(i) => Some((i, copy_node(&self.features[i]))),
                    }
                } else {
                    None
                };
                match self.create_edge_modifier(fillet, name.as_str(), &edge_sources, facts) {
                    Err(e) => Err(e),
                    Ok(x) => match saved {
                        Some((index, node)) => {
                            proof {
                                assert forall|j: int| 0 <= j < old(self).features@.len() && j != index implies #[trigger] self.features@[j]
                                    == old(self).features@[j] by {
                                    assert(self.features@[j] == self.features@.drop_last()[j]);
                                }
                            }
                            Ok((x, StepUndo::CreatedHiding { index, node }))
                        },
                        None => Err(DocumentError::IdOverflow),
                    },
                }
            },
            ModelCommandRecord::Delete { id } => match self.delete_feature_node(id) {
                Ok((index, node)) => Ok((None, StepUndo::Deleted { index, node })),
                Err(e) => Err(e),
            },
            ModelCommandRecord::DeleteAssembly { id } => match self.delete_assembly_record(id) {
                Ok((index, assembly)) => Ok((None, StepUndo::DeletedAssembly { index, assembly })),
                Err(e) => Err(e),
            },
            ModelCommandRecord::SetOccurrenceSuppressed { assembly_id, occurrence_id, suppressed } => {
                let place = match assembly_at(&self.assemblies, assembly_id) {
                    None => None,
                    Some(a) => match occurrence_at(&self.assemblies[a].occurrences, occurrence_id) {
                        None => None,
                        Some(o) => Some((a, o, self.assemblies[a].occurrences[o].suppressed)),
                    },
                };
                match self.set_occurrence_suppressed(assembly_id, occurrence_id, suppressed) {
                    Err(e) => Err(e),
                    Ok(()) => match place {
                        Some((a, o, previous)) => {
                            proof {
                                let ls = with_direct_suppression(occurrence_lists(old(self).assemblies@), a as int, o as int, suppressed);
                                assert(ls[a as int] =~= old(self).assemblies@[a as int].occurrences@.update(
                                    o as int,
                                    OccurrenceRecord { suppressed: self.assemblies@[a as int].occurrences@[o as int].suppressed, ..old(self).assemblies@[a as int].occurrences@[o as int] },
                                ));
                            }
                            Ok((None, StepUndo::Suppressed { assembly: a, occurrence: o, previous }))
                        },
                        None => {
                            proof {
                                assert(false);
                            }
                            Err(DocumentError::IdOverflow)
                        },
                    },
                }
            },
            ModelCommandRecord::SetSketchPlane { id, plane } => {
                let r = match self.set_sketch_plane(id, plane) {
                    Ok(()) => Ok(None),
                    Err(e) => Err(e),
                };
                Self::edit_outcome(r, saved)
            },
        }
    }

    /// The undo of an accepted in-place edit of the feature saved in `saved`.
    fn edit_outcome(r: Result<Option<FeatureId>, DocumentError>, saved: Option<(usize, FeatureNode)>) -> (o: Result<(Option<FeatureId>, StepUndo), DocumentError>)
        ensures
            match r {
                Ok(x) => match saved {
                    Some((i, node)) => o == Ok::<(Option<FeatureId>, StepUndo), DocumentError>((x, StepUndo::Edited { index: i, node })),
                    None => o is Err,
                },
                Err(e) => o == Err::<(Option<FeatureId>, StepUndo), DocumentError>(e),
            },
    {
        match r {
            Err(e) => Err(e),
            Ok(x) => match saved {
                Some((i, node)) => Ok((x, StepUndo::Edited { index: i, node })),
                None => Err(DocumentError::IdOverflow),
            },
        }
    }

    /// Takes back one accepted command, on a model alike the one it left.
    fn undo_step(&mut self, u: StepUndo, Ghost(before): Ghost<CadDocument>, Ghost(after): Ghost<CadDocument>)
        requires
            undoes(u, before, after),
            same_model(*old(self), after),
        ensures
            same_model(*final(self), before),
    {
        match u {
            StepUndo::Created => {
                let ghost cur = self.features@;
                self.features.pop();
                self.next_id = self.next_id - 1;
                proof {
                    assert forall|j: int| 0 <= j < self.features@.len() implies node_alike(
                        #[trigger] self.features@[j],
                        before.features@[j],
                    ) by {
                        assert(node_alike(cur[j], after.features@[j]));
                        assert(after.features@[j] == after.features@.drop_last()[j]);
                    }
                    assert forall|b: int| 0 <= b < self.assemblies@.len() implies same_assembly(
                        #[trigger] self.assemblies@[b],
                        before.assemblies@[b],
                    ) by {
                        assert(same_assembly(old(self).assemblies@[b], after.assemblies@[b]));
                    }
                }
            },
            StepUndo::Deleted { index, node } => {
                let ghost cur = self.features@;
                self.features.insert(index, node);
                proof {
                    assert forall|j: int| 0 <= j < self.features@.len() implies node_alike(
                        #[trigger] self.features@[j],
                        before.features@[j],
                    ) by {
                        if j < index {
                            assert(node_alike(cur[j], after.features@[j]));
                        } else if j > index {
                            assert(node_alike(cur[j - 1], after.features@[j - 1]));
                        }
                    }
                    assert forall|b: int| 0 <= b < self.assemblies@.len() implies same_assembly(
                        #[trigger] self.assemblies@[b],
                        before.assemblies@[b],
                    ) by {
                        assert(same_assembly(old(self).assemblies@[b], after.assemblies@[b]));
                    }
                }
            },
            StepUndo::Edited { index, node } => {
                let ghost cur = self.features@;
                let _ = self.features.remove(index);
                self.features.insert(index, node);
                proof {
                    assert forall|j: int| 0 <= j < self.features@.len() implies node_alike(
                        #[trigger] self.features@[j],
                        before.features@[j],
                    ) by {
                        if j != index {
                            assert(self.features@[j] == cur[j]);
                            assert(node_alike(cur[j], after.features@[j]));
                        }
                    }
                    assert forall|b: int| 0 <= b < self.assemblies@.len() implies same_assembly(
                        #[trigger] self.assemblies@[b],
                        before.assemblies@[b],
                    ) by {
                        assert(same_assembly(old(self).assemblies@[b], after.assemblies@[b]));
                    }
                }
            },
            StepUndo::CreatedHiding { index, node } => {
                let ghost cur = self.features@;
                self.features.pop();
                self.next_id = self.next_id - 1;
                let _ = self.features.remove(index);
                self.features.insert(index, node);
                proof {
                    assert forall|j: int| 0 <= j < self.features@.len() implies node_alike(
                        #[trigger] self.features@[j],
                        before.features@[j],
                    ) by {
                        if j != index {
                            assert(self.features@[j] == cur[j]);
                            assert(node_alike(cur[j], after.features@[j]));
                        }
                    }
                    assert forall|b: int| 0 <= b < self.assemblies@.len() implies same_assembly(
                        #[trigger] self.assemblies@[b],
                        before.assemblies@[b],
                    ) by {
                        assert(same_assembly(old(self).assemblies@[b], after.assemblies@[b]));
                    }
                }
            },
            StepUndo::Kept => {},
            StepUndo::DeletedAssembly { index, assembly } => {
                self.assemblies.insert(index, assembly);
                proof {
                    assert forall|b: int| 0 <= b < self.assemblies@.len() implies same_assembly(
                        #[trigger] self.assemblies@[b],
                        before.assemblies@[b],
                    ) by {
                        if b < index {
                            assert(same_assembly(old(self).assemblies@[b], after.assemblies@[b]));
                        } else if b > index {
                            assert(same_assembly(old(self).assemblies@[b - 1], after.assemblies@[b - 1]));
                        }
                    }
                }
            },
            StepUndo::Suppressed { assembly, occurrence, previous } => {
                let a = assembly;
                let o = occurrence;
                proof {
                    assert(same_assembly(old(self).assemblies@[a as int], after.assemblies@[a as int]));
                }
                let mut occs = self.swap_occurrences(a, Vec::new());
                let mut record = occs.remove(o);
                record.suppressed = previous;
                occs.insert(o, record);
                let _ = self.swap_occurrences(a, occs);
                proof {
                    assert(self.assemblies@[a as int].occurrences@ =~= before.assemblies@[a as int].occurrences@);
                    assert forall|b: int| 0 <= b < self.assemblies@.len() implies same_assembly(
                        #[trigger] self.assemblies@[b],
                        before.assemblies@[b],
                    ) by {
                        assert(same_assembly(old(self).assemblies@[b], after.assemblies@[b]));
                        if b != a {
                            assert(after.assemblies@[b] == before.assemblies@[b]);
                        }
                    }
                }
            },
        }
    }

    /// Takes back, last first, the accepted commands that `undos` records,
    /// which ran through `states`.
    fn roll_back(&mut self, undos: Vec<StepUndo>, Ghost(states): Ghost<Seq<CadDocument>>)
        requires
            states.len() == undos@.len() + 1,
            undo_trail(undos@, states),
            same_model(*old(self), states.last()),
        ensures
            same_model(*final(self), states[0]),
    {
        let mut undos = undos;
        let mut j: usize = undos.len();
        while j > 0
            invariant
                undos@.len() == j,
                states.len() >= j + 1,
                forall|q: int| 0 <= q < j ==> undoes(#[trigger] undos@[q], states[q], states[q + 1]),
                same_model(*self, states[j as int]),
            decreases j,
        {
            let u = undos.pop().unwrap();
            proof {
                assert(undoes(u, states[j - 1], states[j as int]));
            }
            self.undo_step(u, Ghost(states[j - 1]), Ghost(states[j as int]));
            j -= 1;
        }
    }

    /// Applies `commands` in turn as one edit, with the host's facts for each
    /// (none where `facts` runs out): every command is accepted in the state
    /// the earlier ones left, and the ids of the created features are handed
    /// back; or the first refusal is reported and the model is left as it was.
    #[verifier::rlimit(40)]
    #[verifier::spinoff_prover]
    pub fn apply_transaction(&mut self, commands: Vec<ModelCommandRecord>, facts: &Vec<CommandFacts>) -> (r: Result<Vec<FeatureId>, DocumentError>)
        ensures
            match r {
                Ok(ids) => exists|states: Seq<CadDocument>, results: Seq<Option<FeatureId>>|
                    #![trigger staged_run(states, commands@, facts@, results)]
                    staged_run(states, commands@, facts@, results) && states[0] == *old(self)
                        && states.last() == *final(self) && ids@ == created_ids(results),
                Err(e) => same_model(*final(self), *old(self)) && exists|
                    k: int,
                    states: Seq<CadDocument>,
                    results: Seq<Option<FeatureId>>,
                    refused: CadDocument,
                |
                    #![trigger staged_run(states, commands@.take(k), facts@, results), command_applied(states.last(), refused, commands@[k], fact_at(facts@, k), Err(e))]
                    0 <= k < commands@.len() && staged_run(states, commands@.take(k), facts@, results)
                        && states[0] == *old(self) && command_applied(
                        states.last(),
                        refused,
                        commands@[k],
                        fact_at(facts@, k),
                        Err(e),
                    ),
            },
    {
        let ghost all = commands@;
        let ghost start = *self;
        let n = commands.len();
        let mut rest = commands;
        let mut undos: Vec<StepUndo> = Vec::new();
        let mut ids: Vec<FeatureId> = Vec::new();
        let ghost mut states: Seq<CadDocument> = seq![*self];
        let ghost mut results: Seq<Option<FeatureId>> = Seq::empty();
        let ghost mut refused: CadDocument = *self;
        let mut refusal: Option<DocumentError> = None;
        let mut k: usize = 0;
        while k < n
            invariant_except_break
                k <= all.len(),
                rest@ == all.skip(k as int),
                states.len() == k + 1,
                undos@.len() == k,
                staged_run(states, all.take(k as int), facts@, results),
                states[0] == start,
                states.last() == *self,
                ids@ == created_ids(results),
                undo_trail(undos@, states),
                refusal is None,
            invariant
                n == all.len(),
                start == *old(self),
            ensures
                refusal is None ==> k == n && staged_run(states, all.take(k as int), facts@, results) && states[0]
                    == start && states.last() == *self && ids@ == created_ids(results),
                refusal matches Some(e) ==> same_model(*self, start) && 0 <= k < n && staged_run(
                    states,
                    all.take(k as int),
                    facts@,
                    results,
                ) && states[0] == start && command_applied(states.last(), refused, all[k as int], fact_at(facts@, k as int), Err(e)),
            decreases n - k,
        {
            let command = rest.remove(0);
            let empty = CommandFacts { definition_fault: None, placement_fault: None };
            let f = if k < facts.len() { &facts[k] } else { &empty };
            let ghost before = *self;
            proof {
                assert(command == all[k as int]);
                assert(*f == fact_at(facts@, k as int));
            }
            match self.apply_step(command, f) {
                Ok((id, u)) => {
                    let ghost undos_before = undos@;
                    undos.push(u);
                    if let Some(x) = id {
                        ids.push(x);
                    }
                    proof {
                        lemma_run_extends(states, all.take(k as int), facts@, results, undos_before, *self, all[k as int], id, u);
                        assert(all.take(k + 1) =~= all.take(k as int).push(all[k as int]));
                        states = states.push(*self);
                        results = results.push(id);
                        assert(rest@ =~= all.skip(k + 1));
                    }
                },
                Err(e) => {
                    proof {
                        refused = *self;
                        lemma_refused_command_changes_nothing(before, refused, all[k as int], fact_at(facts@, k as int), Err(e));
                    }
                    self.roll_back(undos, Ghost(states));
                    refusal = Some(e);
                    break;
                },
            }
            k += 1;
        }
        match refusal {
            Some(e) => Err(e),
            None => {
                proof {
                    assert(all.take(all.len() as int) =~= all);
                }
                Ok(ids)
            },
        }
    }
}

// ---------------------------------------------------------------------------
// Laws
// ---------------------------------------------------------------------------

pub proof fn lemma_feature_index(nodes: Seq<FeatureNode>, id: FeatureId, i: int)
    requires
        0 <= i,
    ensures
        feature_index(nodes, id, i) matches Some(k) ==> i <= k < nodes.len() && nodes[k].id == id,
    decreases nodes.len() - i,
{
    if i < nodes.len() && nodes[i].id != id {
        lemma_feature_index(nodes, id, i + 1);
    }
}

pub proof fn lemma_no_dependent(nodes: Seq<FeatureNode>, id: FeatureId, i: int)
    requires
        0 <= i,
        first_dependent(nodes, id, i) is None,
    ensures
        forall|j: int| i <= j < nodes.len() ==> !(#[trigger] nodes[j]).link.deps().contains(id),
    decreases nodes.len() - i,
{
    if i < nodes.len() {
        lemma_no_dependent(nodes, id, i + 1);
    }
}

/// A feature that may be deleted leaves no consumer behind: no remaining
/// feature depends on it, and no assembly occurrence owns it.
pub proof fn law_deleted_feature_leaves_no_consumer(d: CadDocument, id: FeatureId)
    requires
        delete_fault(d, id) is None,
    ensures
        ({
            let rest = d.features@.remove(feature_index(d.features@, id, 0)->Some_0);
            forall|j: int| 0 <= j < rest.len() ==> !(#[trigger] rest[j]).link.deps().contains(id)
        }),
        assembly_owning(d.assemblies@, id, 0) is None,
{
    lemma_no_dependent(d.features@, id, 0);
    lemma_feature_index(d.features@, id, 0);
    let i = feature_index(d.features@, id, 0)->Some_0;
    let rest = d.features@.remove(i);
    assert forall|j: int| 0 <= j < rest.len() implies !(#[trigger] rest[j]).link.deps().contains(id) by {
        if j < i {
            assert(rest[j] == d.features@[j]);
        } else {
            assert(rest[j] == d.features@[j + 1]);
        }
    }
}

/// The ids a repair hands out next are past every id in use.
pub proof fn law_repair_hands_out_fresh_ids(nodes: Seq<FeatureNode>, asms: Seq<AssemblyRecord>)
    ensures
        forall|i: int| 0 <= i < nodes.len() ==> #[trigger] nodes[i].id < max_feature_id(nodes) + 1,
        forall|a: int| 0 <= a < asms.len() ==> #[trigger] asms[a].id < max_assembly_id(asms) + 1,
    decreases nodes.len() + asms.len(),
{
    if nodes.len() > 0 {
        law_repair_hands_out_fresh_ids(nodes.drop_last(), asms);
        assert forall|i: int| 0 <= i < nodes.len() implies #[trigger] nodes[i].id < max_feature_id(
            nodes,
        ) + 1 by {
            if i < nodes.len() - 1 {
                assert(nodes.drop_last()[i] == nodes[i]);
            }
        }
    }
    if asms.len() > 0 {
        law_repair_hands_out_fresh_ids(nodes, asms.drop_last());
        assert forall|a: int| 0 <= a < asms.len() implies #[trigger] asms[a].id < max_assembly_id(
            asms,
        ) + 1 by {
            if a < asms.len() - 1 {
                assert(asms.drop_last()[a] == asms[a]);
            }
        }
    }
}

/// A repaired name is never empty and keeps at most 80 characters.
pub proof fn law_repaired_name_is_present_and_bounded(name: Seq<char>)
    ensures
        1 <= normalized(name, "Untitled"@).len() <= MAX_FEATURE_NAME_CHARS,
{
    reveal_strlit("Untitled");
}

/// The features of the occurrences from `o` on, in order.
pub open spec fn occurrence_features(occs: Seq<OccurrenceRecord>, o: int) -> Seq<FeatureId>
    decreases occs.len() - o,
{
    if o < 0 || o >= occs.len() {
        Seq::empty()
    } else {
        occs[o].feature_ids@ + occurrence_features(occs, o + 1)
    }
}

/// The features every occurrence of the assemblies from `a` on owns, in order.
pub open spec fn owned_features(asms: Seq<AssemblyRecord>, a: int) -> Seq<FeatureId>
    decreases asms.len() - a,
{
    if a < 0 || a >= asms.len() {
        Seq::empty()
    } else {
        occurrence_features(asms[a].occurrences@, 0) + owned_features(asms, a + 1)
    }
}

/// What a scan that goes through guarantees of the features it visits:
/// none repeats, none had an owner before, and each has one after.
pub open spec fn fresh_owners(
    visited: Seq<FeatureId>,
    before: Map<FeatureId, (AssemblyId, ComponentOccurrenceId)>,
    after: Map<FeatureId, (AssemblyId, ComponentOccurrenceId)>,
) -> bool {
    &&& visited.no_duplicates()
    &&& forall|j: int| 0 <= j < visited.len() ==> !before.contains_key(#[trigger] visited[j])
    &&& after.dom() == before.dom() + visited.to_set()
}

proof fn lemma_fresh_concat(
    s: Seq<FeatureId>,
    t: Seq<FeatureId>,
    m0: Map<FeatureId, (AssemblyId, ComponentOccurrenceId)>,
    m1: Map<FeatureId, (AssemblyId, ComponentOccurrenceId)>,
    m2: Map<FeatureId, (AssemblyId, ComponentOccurrenceId)>,
)
    requires
        fresh_owners(s, m0, m1),
        fresh_owners(t, m1, m2),
    ensures
        fresh_owners(s + t, m0, m2),
{
    let u = s + t;
    assert forall|i: int, j: int| 0 <= i < u.len() && 0 <= j < u.len() && i != j implies u[i]
        != u[j] by {
        if i < s.len() && j >= s.len() {
            assert(m1.dom().contains(s[i]));
            assert(!m1.contains_key(t[j - s.len()]));
        } else if i >= s.len() && j < s.len() {
            assert(m1.dom().contains(s[j]));
            assert(!m1.contains_key(t[i - s.len()]));
        } else if i >= s.len() && j >= s.len() {
            assert(t[i - s.len()] != t[j - s.len()]);
        }
    }
    assert forall|j: int| 0 <= j < u.len() implies !m0.contains_key(#[trigger] u[j]) by {
        if j >= s.len() {
            assert(!m1.contains_key(t[j - s.len()]));
        }
    }
    assert(u.to_set() =~= s.to_set() + t.to_set()) by {
        assert forall|x: FeatureId| u.to_set().contains(x) <==> (s.to_set() + t.to_set()).contains(x) by {
            if u.contains(x) {
                let i = choose|i: int| 0 <= i < u.len() && u[i] == x;
                if i < s.len() {
                    assert(s[i] == x);
                } else {
                    assert(t[i - s.len()] == x);
                }
            }
            if s.contains(x) {
                let i = choose|i: int| 0 <= i < s.len() && s[i] == x;
                assert(u[i] == x);
            }
            if t.contains(x) {
                let i = choose|i: int| 0 <= i < t.len() && t[i] == x;
                assert(u[s.len() + i] == x);
            }
        }
    }
    assert(m2.dom() =~= m0.dom() + u.to_set());
}

proof fn lemma_own_features(
    nodes: Seq<FeatureNode>,
    mismatches: Seq<(ComponentOccurrenceId, FeatureId)>,
    owners: Map<FeatureId, (AssemblyId, ComponentOccurrenceId)>,
    assembly: AssemblyId,
    occ: ComponentOccurrenceId,
    fs: Seq<FeatureId>,
    k: int,
)
    requires
        0 <= k <= fs.len(),
        own_features_from(nodes, mismatches, owners, assembly, occ, fs, k) is Ok,
    ensures
        fresh_owners(
            fs.subrange(k, fs.len() as int),
            owners,
            own_features_from(nodes, mismatches, owners, assembly, occ, fs, k)->Ok_0,
        ),
    decreases fs.len() - k,
{
    let t = fs.subrange(k, fs.len() as int);
    if k == fs.len() {
        assert(t.to_set() =~= Set::<FeatureId>::empty());
        assert(owners.dom() + t.to_set() =~= owners.dom());
    } else {
        let f = fs[k];
        let next = own_step(nodes, mismatches, owners, assembly, occ, f)->Ok_0;
        assert(next == owners.insert(f, (assembly, occ)));
        assert(!owners.contains_key(f));
        lemma_own_features(nodes, mismatches, next, assembly, occ, fs, k + 1);
        let single = seq![f];
        assert(fresh_owners(single, owners, next)) by {
            assert forall|x: FeatureId| single.to_set().contains(x) <==> x == f by {
                if x == f {
                    assert(single[0] == f);
                }
                if single.contains(x) {
                    let i = choose|i: int| 0 <= i < single.len() && single[i] == x;
                }
            }
            assert(single.to_set() =~= set![f]);
            assert(next.dom() =~= owners.dom() + single.to_set());
        }
        assert(t =~= single + fs.subrange(k + 1, fs.len() as int));
        lemma_fresh_concat(
            single,
            fs.subrange(k + 1, fs.len() as int),
            owners,
            next,
            own_features_from(nodes, mismatches, next, assembly, occ, fs, k + 1)->Ok_0,
        );
    }
}

proof fn lemma_own_occurrences(
    nodes: Seq<FeatureNode>,
    mismatches: Seq<(ComponentOccurrenceId, FeatureId)>,
    owners: Map<FeatureId, (AssemblyId, ComponentOccurrenceId)>,
    assembly: AssemblyId,
    occs: Seq<OccurrenceRecord>,
    o: int,
)
    requires
        0 <= o <= occs.len(),
        own_occurrences_from(nodes, mismatches, owners, assembly, occs, o) is Ok,
    ensures
        fresh_owners(
            occurrence_features(occs, o),
            owners,
            own_occurrences_from(nodes, mismatches, owners, assembly, occs, o)->Ok_0,
        ),
    decreases occs.len() - o,
{
    if o == occs.len() {
        assert(occurrence_features(occs, o).to_set() =~= Set::<FeatureId>::empty());
        assert(owners.dom() + Set::<FeatureId>::empty() =~= owners.dom());
    } else {
        let fs = occs[o].feature_ids@;
        let next = own_features_from(nodes, mismatches, owners, assembly, occs[o].id, fs, 0)->Ok_0;
        lemma_own_features(nodes, mismatches, owners, assembly, occs[o].id, fs, 0);
        assert(fs.subrange(0, fs.len() as int) =~= fs);
        lemma_own_occurrences(nodes, mismatches, next, assembly, occs, o + 1);
        lemma_fresh_concat(
            fs,
            occurrence_features(occs, o + 1),
            owners,
            next,
            own_occurrences_from(nodes, mismatches, next, assembly, occs, o + 1)->Ok_0,
        );
    }
}

proof fn lemma_own_assemblies(
    nodes: Seq<FeatureNode>,
    asms: Seq<AssemblyRecord>,
    facts: Seq<AssemblyFacts>,
    owners: Map<FeatureId, (AssemblyId, ComponentOccurrenceId)>,
    a: int,
)
    requires
        0 <= a <= asms.len(),
        assemblies_from(nodes, asms, facts, owners, a) is Ok,
    ensures
        fresh_owners(
            owned_features(asms, a),
            owners,
            assemblies_from(nodes, asms, facts, owners, a)->Ok_0,
        ),
    decreases asms.len() - a,
{
    if a == asms.len() {
        assert(owned_features(asms, a).to_set() =~= Set::<FeatureId>::empty());
        assert(owners.dom() + Set::<FeatureId>::empty() =~= owners.dom());
    } else {
        let occs = asms[a].occurrences@;
        let mismatches = mismatches_at(facts, a);
        let next = own_occurrences_from(nodes, mismatches, owners, asms[a].id, occs, 0)->Ok_0;
        lemma_own_occurrences(nodes, mismatches, owners, asms[a].id, occs, 0);
        lemma_own_assemblies(nodes, asms, facts, next, a + 1);
        lemma_fresh_concat(
            occurrence_features(occs, 0),
            owned_features(asms, a + 1),
            owners,
            next,
            assemblies_from(nodes, asms, facts, next, a + 1)->Ok_0,
        );
    }
}

/// In a model that passes its checks, no feature is owned twice: across
/// every occurrence of every assembly, each feature appears at most once.
pub proof fn law_passing_model_owns_each_feature_once(d: CadDocument, facts: ModelFacts)
    requires
        model_problem(d, facts) is None,
    ensures
        owned_features(d.assemblies@, 0).no_duplicates(),
{
    lemma_own_assemblies(d.features@, d.assemblies@, facts.assemblies@, Map::empty(), 0);
}

} // verus!
