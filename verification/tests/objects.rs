use std::collections::BTreeMap;

use cadx_core::command::{
    CadCommand, CommandTransaction, DocumentFacts, CadDocument, EntityRecord, EntityShape,
    ParameterRecord,
};
use cadx_core::constraint::{ConstraintKind, PointAnchor, SketchConstraint, SketchPoint};
use cadx_core::document::Layer;
use cadx_core::expression::ParameterExpression;
use cadx_core::object::{transaction_objects, transaction_writes, ObjectId, ObjectPrecondition, ObjectVersionIndex};
use cadx_core::snapshot::DocumentSnapshot;

fn facts() -> DocumentFacts {
    DocumentFacts { evaluation_fault: None, dimension_faults: BTreeMap::new() }
}

fn entity(id: u64, layer: u64, kind: EntityShape, refs: Vec<u64>) -> EntityRecord {
    EntityRecord { id, layer, name: format!("E{id}"), kind, geometry_fault: None, parameter_refs: refs }
}

fn parameter(id: u64, name: &str, formula: Option<&str>) -> ParameterRecord {
    ParameterRecord {
        id,
        name: name.to_owned(),
        value_finite: true,
        expression: formula.map(|f| ParameterExpression::new(f).ok().unwrap()),
    }
}

fn document() -> CadDocument {
    let mut d = CadDocument::new("Objects");
    CommandTransaction::new(vec![
        CadCommand::CreateLayer {
            layer: Layer { id: 2, name: "Parts".to_owned(), visible: true, locked: false, color: [1, 2, 3, 4] },
        },
        CadCommand::SetParameter { parameter: parameter(1, "width", None) },
        CadCommand::SetParameter { parameter: parameter(2, "depth", None) },
        CadCommand::CreateEntity {
            entity: entity(1, 2, EntityShape::SketchProfile { closed: true, points: 4 }, vec![1]),
        },
        CadCommand::CreateEntity {
            entity: entity(2, 1, EntityShape::Extrude { profile: 1 }, vec![2]),
        },
    ])
    .apply(&mut d, &facts())
    .ok()
    .unwrap();
    d
}

#[test]
fn a_transaction_touches_what_its_commands_read_and_write() {
    let d = document();
    let update = CommandTransaction::new(vec![
        CadCommand::UpdateEntity { entity: entity(2, 1, EntityShape::Line, vec![]) },
        CadCommand::SetParameter { parameter: parameter(3, "total", Some("width + depth")) },
        CadCommand::CreateConstraint {
            constraint: SketchConstraint {
                id: 5,
                name: "Span".to_owned(),
                driving: true,
                kind: ConstraintKind::Distance {
                    first: SketchPoint { entity_id: 7, anchor: PointAnchor::Start },
                    second: SketchPoint { entity_id: 8, anchor: PointAnchor::End },
                    value: ParameterExpression::new("width * 2").ok().unwrap(),
                },
            },
            dimension_fault: None,
        },
    ]);
    assert_eq!(
        transaction_objects(&update, &d),
        vec![
            ObjectId::Layer(1),
            ObjectId::Entity(1),
            ObjectId::Entity(2),
            ObjectId::Entity(7),
            ObjectId::Entity(8),
            ObjectId::Parameter(1),
            ObjectId::Parameter(2),
            ObjectId::Parameter(3),
            ObjectId::Constraint(5),
        ]
    );
    assert_eq!(
        transaction_writes(&update),
        vec![ObjectId::Entity(2), ObjectId::Parameter(3), ObjectId::Constraint(5)]
    );
    let delete = CommandTransaction::new(vec![CadCommand::DeleteEntity { id: 1 }]);
    assert_eq!(
        transaction_objects(&delete, &d),
        vec![ObjectId::Layer(2), ObjectId::Entity(1), ObjectId::Parameter(1)]
    );
}

#[test]
fn versions_start_at_the_root_and_follow_each_transaction() {
    let d = document();
    let mut versions = ObjectVersionIndex::from_root(&d);
    let root = versions.precondition(ObjectId::Entity(2));
    assert!(root.exists);
    assert_eq!(root.last_modified_revision, Some(0));
    assert!(!versions.precondition(ObjectId::Entity(9)).exists);
    assert_eq!(versions.precondition(ObjectId::Constraint(1)).last_modified_revision, None);

    versions.apply_transaction(
        3,
        &CommandTransaction::new(vec![CadCommand::DeleteEntity { id: 2 }, CadCommand::DeleteParameter { id: 2 }]),
    );
    let deleted = versions.precondition(ObjectId::Entity(2));
    assert!(!deleted.exists);
    assert_eq!(deleted.last_modified_revision, Some(3));
    assert_eq!(versions.precondition(ObjectId::Layer(1)).last_modified_revision, Some(0));
}

#[test]
fn a_snapshot_reads_preconditions_for_a_transaction() {
    let d = document();
    let versions = ObjectVersionIndex::from_root(&d);
    let snapshot = DocumentSnapshot::new(4, d, versions);
    assert_eq!(snapshot.revision(), 4);
    assert_eq!(snapshot.summary().entity_count, 2);
    assert_eq!(snapshot.document().layers.len(), 2);
    let pre = snapshot.preconditions_for(&CommandTransaction::new(vec![CadCommand::DeleteLayer { id: 9 }]));
    assert_eq!(pre.len(), 1);
    assert_eq!(pre[0].object, ObjectId::Layer(9));
    assert!(!pre[0].exists);
    let pre = snapshot.preconditions_for(&CommandTransaction::new(vec![CadCommand::DeleteEntity { id: 2 }]));
    assert_eq!(pre.iter().map(|p| p.object).collect::<Vec<_>>(), vec![
        ObjectId::Layer(1),
        ObjectId::Entity(1),
        ObjectId::Entity(2),
        ObjectId::Parameter(2),
    ]);
    assert!(pre.iter().all(|p| p.exists && p.last_modified_revision == Some(0)));
}

#[test]
fn a_snapshot_reports_the_first_precondition_it_no_longer_meets() {
    let d = document();
    let mut versions = ObjectVersionIndex::from_root(&d);
    versions.apply_transaction(5, &CommandTransaction::new(vec![CadCommand::DeleteEntity { id: 2 }]));
    let snapshot = DocumentSnapshot::new(5, d, versions);
    let layer = ObjectPrecondition { object: ObjectId::Layer(1), exists: true, last_modified_revision: Some(0) };
    let stale = ObjectPrecondition { object: ObjectId::Entity(2), exists: true, last_modified_revision: Some(0) };
    let fresh = ObjectPrecondition { object: ObjectId::Entity(2), exists: false, last_modified_revision: Some(5) };
    assert_eq!(snapshot.conflicting_precondition(&[layer, fresh]), None);
    assert_eq!(snapshot.conflicting_precondition(&[]), None);
    assert_eq!(snapshot.conflicting_precondition(&[layer, stale, fresh]), Some((stale, fresh)));
    let unseen = ObjectPrecondition { object: ObjectId::Layer(9), exists: true, last_modified_revision: None };
    assert_eq!(
        snapshot.conflicting_precondition(&[unseen]),
        Some((unseen, ObjectPrecondition { object: ObjectId::Layer(9), exists: false, last_modified_revision: None }))
    );
}
