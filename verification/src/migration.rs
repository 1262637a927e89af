//! Migration of documents written before sketches carried their own plane:
//! every sketch is placed on the world plane its consumers imply, and a sketch
//! consumed both by an extrusion and by a revolve is split in two.

use vstd::prelude::*;

use crate::document::{lemma_max_id, max_id};
use crate::feature::{DocumentError, FeatureId, SketchPlane};

verus! {

/// The first document format version in which sketches store their plane.
pub const SKETCH_PLANE_FORMAT_VERSION: u32 = 12;

/// What a stored feature is, as far as the sketch-plane migration reads it.
#[derive(Clone, Copy, Debug, PartialEq, Eq, Structural)]
pub enum LegacyRole {
    Sketch,
    ExtrusionOf(FeatureId),
    RevolveOf(FeatureId),
    Other,
}

/// A stored feature: its id and its role.
#[derive(Clone, Copy, Debug, PartialEq, Eq, Structural)]
pub struct LegacyFeature {
    pub id: FeatureId,
    pub role: LegacyRole,
}

/// What migrating a document changes: each sketch's plane, in feature order,
/// and for each sketch consumed by both an extrusion and a revolve the id of
/// its copy on the XZ plane, which the revolves consume from then on.
pub struct SketchMigration {
    pub planes: Vec<(FeatureId, SketchPlane)>,
    pub copies: Vec<(FeatureId, FeatureId)>,
}

pub open spec fn extruded(fs: Seq<LegacyFeature>, sketch: FeatureId) -> bool {
    exists|i: int| 0 <= i < fs.len() && fs[i].role == LegacyRole::ExtrusionOf(sketch)
}

pub open spec fn revolved(fs: Seq<LegacyFeature>, sketch: FeatureId) -> bool {
    exists|i: int| 0 <= i < fs.len() && fs[i].role == LegacyRole::RevolveOf(sketch)
}

/// A sketch only revolved goes on the XZ plane; every other sketch on XY.
pub open spec fn legacy_plane(fs: Seq<LegacyFeature>, sketch: FeatureId) -> SketchPlane {
    if revolved(fs, sketch) && !extruded(fs, sketch) {
        SketchPlane::WorldXz
    } else {
        SketchPlane::WorldXy
    }
}

pub open spec fn is_sketch(f: LegacyFeature) -> bool {
    f.role == LegacyRole::Sketch
}

/// Whether feature `f` of `fs` is a sketch that an extrusion and a revolve
/// both consume.
pub open spec fn is_split(fs: Seq<LegacyFeature>, f: LegacyFeature) -> bool {
    is_sketch(f) && extruded(fs, f.id) && revolved(fs, f.id)
}

/// The planes of the sketches among the first `n` features, in order.
pub open spec fn planes_upto(fs: Seq<LegacyFeature>, n: int) -> Seq<(FeatureId, SketchPlane)>
    decreases n,
{
    if n <= 0 || n > fs.len() {
        Seq::empty()
    } else if is_sketch(fs[n - 1]) {
        planes_upto(fs, n - 1).push((fs[n - 1].id, legacy_plane(fs, fs[n - 1].id)))
    } else {
        planes_upto(fs, n - 1)
    }
}

/// The ids of the split sketches among the first `n` features, in order.
pub open spec fn splits_upto(fs: Seq<LegacyFeature>, n: int) -> Seq<FeatureId>
    decreases n,
{
    if n <= 0 || n > fs.len() {
        Seq::empty()
    } else if is_split(fs, fs[n - 1]) {
        splits_upto(fs, n - 1).push(fs[n - 1].id)
    } else {
        splits_upto(fs, n - 1)
    }
}

pub open spec fn feature_ids(fs: Seq<LegacyFeature>) -> Seq<FeatureId> {
    fs.map_values(|f: LegacyFeature| f.id)
}

/// The first id past every feature (1 without features); none when the
/// largest id is `u64::MAX`.
pub open spec fn first_free_id(fs: Seq<LegacyFeature>) -> Option<int> {
    match max_id(feature_ids(fs)) {
        None => Some(1),
        Some(m) => if m == u64::MAX {
            None
        } else {
            Some(m + 1)
        },
    }
}

/// Copies of `splits`, numbered from `next` on.
pub open spec fn numbered(splits: Seq<FeatureId>, next: int) -> Seq<(FeatureId, FeatureId)> {
    Seq::new(splits.len(), |k: int| (splits[k], (next + k) as u64))
}

/// The migration of a document stored in format `version`: none from the
/// plane-carrying format on; otherwise every sketch's plane and a copy, with
/// the next free ids in order, of every split sketch. The ids must not run
/// out: the id after the last copy must still fit.
pub open spec fn migration_outcome(fs: Seq<LegacyFeature>, version: u32) -> Option<
    (Seq<(FeatureId, SketchPlane)>, Seq<(FeatureId, FeatureId)>),
> {
    if version >= SKETCH_PLANE_FORMAT_VERSION {
        Some((Seq::empty(), Seq::empty()))
    } else {
        match first_free_id(fs) {
            None => None,
            Some(next) => {
                let splits = splits_upto(fs, fs.len() as int);
                if splits.len() > 0 && next + splits.len() > u64::MAX {
                    None
                } else {
                    Some((planes_upto(fs, fs.len() as int), numbered(splits, next)))
                }
            },
        }
    }
}

fn uses(features: &[LegacyFeature], sketch: FeatureId) -> (r: (bool, bool))
    ensures
        r.0 == extruded(features@, sketch),
        r.1 == revolved(features@, sketch),
{
    let mut by_extrusion = false;
    let mut by_revolve = false;
    let mut i: usize = 0;
    while i < features.len()
        invariant
            i <= features@.len(),
            by_extrusion == exists|j: int|
                0 <= j < i && features@[j].role == LegacyRole::ExtrusionOf(sketch),
            by_revolve == exists|j: int| 0 <= j < i && features@[j].role == LegacyRole::RevolveOf(sketch),
        decreases features@.len() - i,
    {
        match features[i].role {
            LegacyRole::ExtrusionOf(s) => {
                if s == sketch {
                    by_extrusion = true;
                }
            },
            LegacyRole::RevolveOf(s) => {
                if s == sketch {
                    by_revolve = true;
                }
            },
            _ => {},
        }
        proof {
            if by_extrusion {
                assert(exists|j: int|
                    0 <= j < i + 1 && features@[j].role == LegacyRole::ExtrusionOf(sketch));
            }
            if by_revolve {
                assert(exists|j: int| 0 <= j < i + 1 && features@[j].role == LegacyRole::RevolveOf(sketch));
            }
        }
        i += 1;
    }
    (by_extrusion, by_revolve)
}

fn largest_id(features: &[LegacyFeature]) -> (r: Option<FeatureId>)
    ensures
        r == max_id(feature_ids(features@)),
{
    let ghost ids = feature_ids(features@);
    let mut best: Option<FeatureId> = None;
    let mut i: usize = 0;
    while i < features.len()
        invariant
            i <= features@.len(),
            ids == feature_ids(features@),
            best == max_id(ids.take(i as int)),
        decreases features@.len() - i,
    {
        proof {
            assert(ids.take(i + 1).drop_last() =~= ids.take(i as int));
        }
        let id = features[i].id;
        best = match best {
            None => Some(id),
            Some(m) => Some(if m < id { id } else { m }),
        };
        i += 1;
    }
    proof {
        assert(ids.take(features@.len() as int) =~= ids);
    }
    best
}

/// Plans the migration of a document stored in format `version`, with
/// features `features` in their stored order; reports `IdOverflow` when no
/// id is free for the first copy, or for the one after the last.
pub fn plan_sketch_migration(features: &[LegacyFeature], version: u32) -> (r: Result<
    SketchMigration,
    DocumentError,
>)
    ensures
        match migration_outcome(features@, version) {
            Some((planes, copies)) => r matches Ok(m) && m.planes@ == planes && m.copies@ == copies,
            None => r matches Err(DocumentError::IdOverflow),
        },
{
    if version >= SKETCH_PLANE_FORMAT_VERSION {
        return Ok(SketchMigration { planes: Vec::new(), copies: Vec::new() });
    }
    let ghost fs = features@;
    let next: FeatureId = match largest_id(features) {
        None => 1,
        Some(m) => {
            if m == u64::MAX {
                return Err(DocumentError::IdOverflow);
            }
            m + 1
        },
    };
    let mut planes: Vec<(FeatureId, SketchPlane)> = Vec::new();
    let mut splits: Vec<FeatureId> = Vec::new();
    let mut i: usize = 0;
    while i < features.len()
        invariant
            fs == features@,
            i <= fs.len(),
            planes@ == planes_upto(fs, i as int),
            splits@ == splits_upto(fs, i as int),
            splits@.len() <= i,
        decreases fs.len() - i,
    {
        let f = features[i];
        match f.role {
            LegacyRole::Sketch => {
                let (by_extrusion, by_revolve) = uses(features, f.id);
                let plane = if by_revolve && !by_extrusion {
                    SketchPlane::WorldXz
                } else {
                    SketchPlane::WorldXy
                };
                planes.push((f.id, plane));
                if by_extrusion && by_revolve {
                    splits.push(f.id);
                }
            },
            _ => {},
        }
        i += 1;
    }
    let count = splits.len();
    if count > 0 && (u64::MAX - next) < (count as u64) {
        return Err(DocumentError::IdOverflow);
    }
    let ghost sv = splits@;
    let mut copies: Vec<(FeatureId, FeatureId)> = Vec::new();
    let mut k: usize = 0;
    while k < count
        invariant
            sv == splits@,
            count == sv.len(),
            k <= count,
            count == 0 || next + count <= u64::MAX,
            copies@ == numbered(sv.take(k as int), next as int),
        decreases count - k,
    {
        copies.push((splits[k], next + (k as u64)));
        proof {
            assert(copies@ =~= numbered(sv.take(k + 1), next as int));
        }
        k += 1;
    }
    proof {
        assert(sv.take(count as int) =~= sv);
    }
    Ok(SketchMigration { planes, copies })
}


/// Every copy a migration makes gets an id no feature had, and the copies'
/// ids increase in the order they are made.
pub proof fn law_sketch_copies_get_fresh_ids(fs: Seq<LegacyFeature>, version: u32)
    ensures
        migration_outcome(fs, version) matches Some((_, copies)) ==> {
            &&& forall|k: int, i: int|
                0 <= k < copies.len() && 0 <= i < fs.len() ==> #[trigger] copies[k].1 != #[trigger] fs[i].id
            &&& forall|k: int, j: int| 0 <= k < j < copies.len() ==> #[trigger] copies[k].1 < #[trigger] copies[j].1
        },
{
    if version < SKETCH_PLANE_FORMAT_VERSION {
        let ids = feature_ids(fs);
        lemma_max_id(ids);
        if let Some(next) = first_free_id(fs) {
            let splits = splits_upto(fs, fs.len() as int);
            if !(splits.len() > 0 && next + splits.len() > u64::MAX) {
                let copies = numbered(splits, next);
                assert forall|k: int, i: int|
                    0 <= k < copies.len() && 0 <= i < fs.len() implies #[trigger] copies[k].1 != #[trigger] fs[i].id by {
                    assert(ids[i] == fs[i].id);
                }
            }
        }
    }
}

} // verus!
