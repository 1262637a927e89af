use cadx_core::feature::{DocumentError, SketchPlane};
use cadx_core::migration::{plan_sketch_migration, LegacyFeature, LegacyRole};

fn feature(id: u64, role: LegacyRole) -> LegacyFeature {
    LegacyFeature { id, role }
}

#[test]
fn current_documents_need_no_migration() {
    let features = vec![feature(1, LegacyRole::Sketch), feature(2, LegacyRole::RevolveOf(1))];
    let plan = plan_sketch_migration(&features, 12).ok().unwrap();
    assert!(plan.planes.is_empty());
    assert!(plan.copies.is_empty());
    let plan = plan_sketch_migration(&features, 22).ok().unwrap();
    assert!(plan.planes.is_empty() && plan.copies.is_empty());
}

#[test]
fn legacy_sketches_take_the_plane_their_consumers_imply() {
    let features = vec![
        feature(3, LegacyRole::Sketch),
        feature(5, LegacyRole::Sketch),
        feature(7, LegacyRole::Sketch),
        feature(8, LegacyRole::ExtrusionOf(3)),
        feature(9, LegacyRole::RevolveOf(5)),
        feature(10, LegacyRole::Other),
    ];
    let plan = plan_sketch_migration(&features, 11).ok().unwrap();
    assert_eq!(
        plan.planes,
        vec![(3, SketchPlane::WorldXy), (5, SketchPlane::WorldXz), (7, SketchPlane::WorldXy)]
    );
    assert!(plan.copies.is_empty());
}

#[test]
fn sketches_both_extruded_and_revolved_are_split_with_fresh_ids() {
    let features = vec![
        feature(1, LegacyRole::Sketch),
        feature(2, LegacyRole::ExtrusionOf(1)),
        feature(3, LegacyRole::RevolveOf(1)),
        feature(4, LegacyRole::Sketch),
        feature(6, LegacyRole::RevolveOf(4)),
        feature(5, LegacyRole::ExtrusionOf(4)),
    ];
    let plan = plan_sketch_migration(&features, 1).ok().unwrap();
    assert_eq!(plan.planes, vec![(1, SketchPlane::WorldXy), (4, SketchPlane::WorldXy)]);
    assert_eq!(plan.copies, vec![(1, 7), (4, 8)]);
}

#[test]
fn migration_runs_out_of_ids_at_the_top_of_the_range() {
    let full = vec![feature(u64::MAX, LegacyRole::Other)];
    assert!(matches!(plan_sketch_migration(&full, 1), Err(DocumentError::IdOverflow)));

    let last_free = vec![
        feature(1, LegacyRole::Sketch),
        feature(u64::MAX - 1, LegacyRole::ExtrusionOf(1)),
        feature(2, LegacyRole::RevolveOf(1)),
    ];
    assert!(matches!(plan_sketch_migration(&last_free, 1), Err(DocumentError::IdOverflow)));

    let room = vec![
        feature(1, LegacyRole::Sketch),
        feature(u64::MAX - 2, LegacyRole::ExtrusionOf(1)),
        feature(2, LegacyRole::RevolveOf(1)),
    ];
    let plan = plan_sketch_migration(&room, 1).ok().unwrap();
    assert_eq!(plan.copies, vec![(1, u64::MAX - 1)]);

    let empty: Vec<LegacyFeature> = Vec::new();
    let plan = plan_sketch_migration(&empty, 1).ok().unwrap();
    assert!(plan.planes.is_empty() && plan.copies.is_empty());
}
