use std::collections::BTreeMap;

use cadx_core::command::{
    CadCommand, CommandTransaction, DocumentFacts, CadDocument, EntityRecord, EntityShape,
    ParameterRecord,
};
use cadx_core::constraint::{ConstraintKind, PointAnchor, SketchConstraint, SketchPoint, SketchSegment};
use cadx_core::document::{CommandError, Domain, Layer};
use cadx_core::expression::ParameterExpression;

fn no_facts() -> DocumentFacts {
    DocumentFacts { evaluation_fault: None, dimension_faults: BTreeMap::new() }
}

fn layer(id: u64, name: &str, locked: bool) -> Layer {
    Layer { id, name: name.to_owned(), visible: true, locked, color: [10, 20, 30, 255] }
}

fn entity(id: u64, layer: u64, name: &str) -> EntityRecord {
    EntityRecord {
        id,
        layer,
        name: name.to_owned(),
        kind: EntityShape::Line,
        geometry_fault: None,
        parameter_refs: Vec::new(),
    }
}

fn parameter(id: u64, name: &str, formula: Option<&str>) -> ParameterRecord {
    ParameterRecord {
        id,
        name: name.to_owned(),
        value_finite: true,
        expression: formula.map(|f| ParameterExpression::new(f).ok().unwrap()),
    }
}

fn constraint(id: u64, name: &str, entity: u64) -> SketchConstraint {
    SketchConstraint {
        id,
        name: name.to_owned(),
        driving: true,
        kind: ConstraintKind::Coincident {
            first: SketchPoint { entity_id: entity, anchor: PointAnchor::Start },
            second: SketchPoint { entity_id: entity, anchor: PointAnchor::End },
        },
    }
}

/// The keys of each table and the next ids, to compare documents.
fn outline(d: &CadDocument) -> (Vec<u64>, Vec<u64>, Vec<u64>, Vec<u64>, [u64; 4]) {
    (
        d.layers.keys().copied().collect(),
        d.entities.keys().copied().collect(),
        d.parameters.keys().copied().collect(),
        d.constraints.keys().copied().collect(),
        [d.next_layer_id, d.next_entity_id, d.next_parameter_id, d.next_constraint_id],
    )
}

fn run(d: &mut CadDocument, commands: Vec<CadCommand>) -> Result<cadx_core::document::DocumentDiff, CommandError> {
    CommandTransaction::new(commands).apply(d, &no_facts())
}

#[test]
fn a_new_document_has_one_concept_layer_and_validates() {
    let d = CadDocument::new("Test");
    assert_eq!(d.metadata.title, "Test");
    assert_eq!(d.metadata.description, "");
    assert_eq!(outline(&d), (vec![1], vec![], vec![], vec![], [2, 1, 1, 1]));
    assert_eq!(d.layers[&1].name, "Concept");
    assert_eq!(d.layers[&1].color, [73, 184, 165, 255]);
    assert!(d.validate(&no_facts()).is_ok());
    assert_eq!(
        [d.next_layer_id(), d.next_entity_id(), d.next_parameter_id(), d.next_constraint_id()],
        [2, 1, 1, 1]
    );
}

#[test]
fn cyclic_parameter_formulas_are_rejected_atomically() {
    let mut document = CadDocument::new("Test");
    let before = outline(&document);
    let transaction = CommandTransaction::new(vec![
        CadCommand::SetParameter { parameter: parameter(1, "a", Some("b + 1")) },
        CadCommand::SetParameter { parameter: parameter(2, "b", Some("a + 1")) },
    ]);
    // Evaluating the document the transaction would leave finds the cycle.
    let facts = DocumentFacts {
        evaluation_fault: Some("parameter dependency cycle: a -> b -> a".to_owned()),
        dimension_faults: BTreeMap::new(),
    };
    let error = transaction.apply(&mut document, &facts).err().unwrap();
    assert!(matches!(error, CommandError::InvalidParameter(ref m) if m == "parameter dependency cycle: a -> b -> a"));
    assert_eq!(outline(&document), before);
}

#[test]
fn arcs_require_a_finite_partial_angular_span_atomically() {
    let mut document = CadDocument::new("Test");
    let before = outline(&document);
    let arc = |id: u64, sweep_angle: f64| {
        let mut e = entity(id, 1, &format!("Arc {id}"));
        // The arc's own geometry check: a sweep must lie strictly inside one turn.
        if !(sweep_angle > 0.0 && sweep_angle < std::f64::consts::TAU) {
            e.geometry_fault = Some("arc center, radius, and angular span must be valid".to_owned());
        }
        e
    };
    let transaction = CommandTransaction::new(vec![
        CadCommand::CreateEntity { entity: arc(1, std::f64::consts::PI) },
        CadCommand::CreateEntity { entity: arc(2, std::f64::consts::TAU) },
    ]);
    assert!(matches!(transaction.apply(&mut document, &no_facts()), Err(CommandError::InvalidGeometry(_))));
    assert_eq!(outline(&document), before);

    CommandTransaction::new(vec![CadCommand::CreateEntity { entity: arc(1, std::f64::consts::PI) }])
        .apply(&mut document, &no_facts())
        .ok()
        .unwrap();
    assert_eq!(document.entities[&1].name, "Arc 1");
    assert!(document.validate(&no_facts()).is_ok());
}

#[test]
fn aligned_dimensions_require_distinct_points_and_a_nonzero_offset_atomically() {
    let mut document = CadDocument::new("Test");
    let before = outline(&document);
    let dimension = |id: u64, end: (f64, f64), offset: f64| {
        let mut e = entity(id, 1, &format!("Dimension {id}"));
        let length = (end.0 - 0.0f64).hypot(end.1 - 0.0);
        if offset == 0.0 || length <= f64::EPSILON {
            e.geometry_fault = Some("aligned dimension points, offset, and text must be valid".to_owned());
        }
        e
    };
    let transaction = CommandTransaction::new(vec![
        CadCommand::CreateEntity { entity: dimension(1, (20.0, 0.0), 8.0) },
        CadCommand::CreateEntity { entity: dimension(2, (20.0, 0.0), 0.0) },
    ]);
    assert!(matches!(transaction.apply(&mut document, &no_facts()), Err(CommandError::InvalidGeometry(_))));
    assert_eq!(outline(&document), before);

    CommandTransaction::new(vec![CadCommand::CreateEntity { entity: dimension(1, (20.0, 0.0), -8.0) }])
        .apply(&mut document, &no_facts())
        .ok()
        .unwrap();
    assert!(document.validate(&no_facts()).is_ok());
}

#[test]
fn a_transaction_reports_its_diff_and_moves_the_next_ids() {
    let mut d = CadDocument::new("Test");
    let diff = run(
        &mut d,
        vec![
            CadCommand::CreateLayer { layer: layer(7, "Walls", false) },
            CadCommand::CreateEntity { entity: entity(4, 7, "Wall A") },
            CadCommand::UpdateEntity { entity: entity(4, 1, "Wall A moved") },
            CadCommand::SetParameter { parameter: parameter(3, "width", None) },
            CadCommand::CreateConstraint { constraint: constraint(9, "Closed", 4), dimension_fault: None },
        ],
    )
    .ok()
    .unwrap();
    assert_eq!(diff.created_layers, vec![7]);
    assert_eq!(diff.created_entities, vec![4]);
    assert_eq!(diff.updated_entities, vec![4]);
    assert_eq!(diff.updated_parameters, vec![3]);
    assert_eq!(diff.created_constraints, vec![9]);
    assert_eq!(diff.summary(), "5 model changes");
    assert_eq!(outline(&d), (vec![1, 7], vec![4], vec![3], vec![9], [8, 5, 4, 10]));
    assert_eq!(d.entities[&4].layer, 1);
    assert_eq!(d.entities[&4].name, "Wall A moved");

    let diff = run(
        &mut d,
        vec![
            CadCommand::DeleteConstraint { id: 9 },
            CadCommand::DeleteEntity { id: 4 },
            CadCommand::DeleteParameter { id: 3 },
            CadCommand::DeleteLayer { id: 7 },
        ],
    )
    .ok()
    .unwrap();
    assert_eq!(diff.deleted_constraints, vec![9]);
    assert_eq!(diff.deleted_entities, vec![4]);
    assert_eq!(diff.deleted_parameters, vec![3]);
    assert_eq!(diff.deleted_layers, vec![7]);
    // Deleting never moves the next ids back.
    assert_eq!(outline(&d), (vec![1], vec![], vec![], vec![], [8, 5, 4, 10]));
}

#[test]
fn preview_reports_without_changing_the_document() {
    let d = CadDocument::new("Test");
    let t = CommandTransaction::new(vec![CadCommand::CreateLayer { layer: layer(2, "Roof", false) }]);
    let diff = t.preview(&d, &no_facts()).ok().unwrap();
    assert_eq!(diff.created_layers, vec![2]);
    assert_eq!(outline(&d), (vec![1], vec![], vec![], vec![], [2, 1, 1, 1]));
}

#[test]
fn layer_commands_are_checked() {
    let mut d = CadDocument::new("Test");
    let create = |l: Layer| CadCommand::CreateLayer { layer: l };
    assert!(matches!(create(layer(1, "Other", false)).validate(&d), Err(CommandError::LayerExists(1))));
    assert!(matches!(
        create(layer(2, " concept ", false)).validate(&d),
        Err(CommandError::InvalidLayer(ref m)) if m == "layer name  concept  is not unique"
    ));
    assert!(matches!(
        create(layer(2, "   ", false)).validate(&d),
        Err(CommandError::InvalidLayer(ref m)) if m == "layer id and name must be valid"
    ));
    assert!(matches!(
        CadCommand::UpdateLayer { layer: layer(5, "Five", false) }.validate(&d),
        Err(CommandError::LayerMissing(5))
    ));
    assert!(CadCommand::UpdateLayer { layer: layer(1, "CONCEPT", true) }.validate(&d).is_ok());
    assert!(matches!(
        CadCommand::DeleteLayer { id: 1 }.validate(&d),
        Err(CommandError::InvalidLayer(ref m)) if m == "a document must retain at least one layer"
    ));
    assert!(matches!(CadCommand::DeleteLayer { id: 3 }.validate(&d), Err(CommandError::LayerMissing(3))));
    run(&mut d, vec![create(layer(2, "Walls", false)), CadCommand::CreateEntity { entity: entity(1, 2, "Wall") }])
        .ok()
        .unwrap();
    assert!(matches!(
        CadCommand::DeleteLayer { id: 2 }.validate(&d),
        Err(CommandError::InvalidLayer(ref m)) if m == "layer 2 must be empty before it can be deleted"
    ));
    assert!(CadCommand::DeleteLayer { id: 1 }.validate(&d).is_ok());
}

#[test]
fn entity_commands_are_checked() {
    let mut d = CadDocument::new("Test");
    run(&mut d, vec![CadCommand::CreateLayer { layer: layer(2, "Locked", true) }]).ok().unwrap();
    run(&mut d, vec![CadCommand::CreateEntity { entity: entity(1, 1, "Line") }]).ok().unwrap();

    let create = |e: EntityRecord| CadCommand::CreateEntity { entity: e };
    assert!(matches!(create(entity(1, 1, "Again")).validate(&d), Err(CommandError::EntityExists(1))));
    assert!(matches!(
        create(entity(2, 1, " ")).validate(&d),
        Err(CommandError::InvalidGeometry(ref m)) if m == "entity id and name must be valid"
    ));
    assert!(matches!(create(entity(2, 9, "Lost")).validate(&d), Err(CommandError::LayerMissing(9))));
    assert!(matches!(create(entity(2, 2, "Frozen")).validate(&d), Err(CommandError::LayerLocked(2))));
    let mut bad = entity(2, 1, "Circle");
    bad.geometry_fault = Some("circle radius must be positive".to_owned());
    assert!(matches!(
        create(bad).validate(&d),
        Err(CommandError::InvalidGeometry(ref m)) if m == "circle radius must be positive"
    ));
    assert!(matches!(
        CadCommand::UpdateEntity { entity: entity(5, 1, "Ghost") }.validate(&d),
        Err(CommandError::EntityMissing(5))
    ));
    assert!(matches!(
        CadCommand::UpdateEntity { entity: entity(1, 2, "Line") }.validate(&d),
        Err(CommandError::LayerLocked(2))
    ));
    assert!(matches!(CadCommand::DeleteEntity { id: 5 }.validate(&d), Err(CommandError::EntityMissing(5))));
    assert!(CadCommand::DeleteEntity { id: 1 }.validate(&d).is_ok());
}

#[test]
fn an_extrusion_needs_a_closed_sketch_profile() {
    let mut d = CadDocument::new("Test");
    let mut open = entity(1, 1, "Open sketch");
    open.kind = EntityShape::SketchProfile { closed: false, points: 5 };
    let mut closed = entity(2, 1, "Closed sketch");
    closed.kind = EntityShape::SketchProfile { closed: true, points: 4 };
    run(&mut d, vec![CadCommand::CreateEntity { entity: open }, CadCommand::CreateEntity { entity: closed }])
        .ok()
        .unwrap();
    let extrude = |id: u64, profile: u64| {
        let mut e = entity(id, 1, "Extrude");
        e.kind = EntityShape::Extrude { profile };
        CadCommand::CreateEntity { entity: e }
    };
    assert!(matches!(
        extrude(3, 1).validate(&d),
        Err(CommandError::InvalidReference(ref m)) if m == "an extrude requires a closed sketch profile"
    ));
    assert!(matches!(extrude(3, 8).validate(&d), Err(CommandError::EntityMissing(8))));
    assert!(extrude(3, 2).validate(&d).is_ok());

    // Deleting the profile in the same transaction leaves a dangling extrusion,
    // which the check of the document the transaction leaves refuses.
    let before = outline(&d);
    assert!(matches!(
        run(&mut d, vec![extrude(3, 2), CadCommand::DeleteEntity { id: 2 }]),
        Err(CommandError::EntityMissing(2))
    ));
    assert_eq!(outline(&d), before);
}

#[test]
fn parameter_commands_are_checked() {
    let d = CadDocument::new("Test");
    assert!(CadCommand::SetParameter { parameter: parameter(1, "width", Some("2 * 3")) }.validate(&d).is_ok());
    assert!(matches!(
        CadCommand::SetParameter { parameter: parameter(1, "2nd", None) }.validate(&d),
        Err(CommandError::InvalidParameter(ref m)) if m == "parameter name and value must be valid"
    ));
    let mut infinite = parameter(1, "width", None);
    infinite.value_finite = false;
    assert!(matches!(
        CadCommand::SetParameter { parameter: infinite }.validate(&d),
        Err(CommandError::InvalidParameter(_))
    ));
    assert!(matches!(
        CadCommand::DeleteParameter { id: 4 }.validate(&d),
        Err(CommandError::InvalidParameter(ref m)) if m == "parameter 4 does not exist"
    ));
}

#[test]
fn constraint_commands_are_checked() {
    let mut d = CadDocument::new("Test");
    run(&mut d, vec![CadCommand::CreateEntity { entity: entity(1, 1, "Line") }]).ok().unwrap();
    run(&mut d, vec![CadCommand::CreateConstraint { constraint: constraint(1, "Joined", 1), dimension_fault: None }])
        .ok()
        .unwrap();
    assert!(matches!(
        CadCommand::CreateConstraint { constraint: constraint(1, "Again", 1), dimension_fault: None }.validate(&d),
        Err(CommandError::ConstraintExists(1))
    ));
    assert!(matches!(
        CadCommand::UpdateConstraint { constraint: constraint(2, "Other", 1), dimension_fault: None }.validate(&d),
        Err(CommandError::ConstraintMissing(2))
    ));
    assert!(matches!(
        CadCommand::CreateConstraint { constraint: constraint(2, "  ", 1), dimension_fault: None }.validate(&d),
        Err(CommandError::InvalidConstraint(ref m)) if m == "constraint id and name must be valid"
    ));
    assert!(matches!(
        CadCommand::CreateConstraint { constraint: constraint(2, "Far", 9), dimension_fault: None }.validate(&d),
        Err(CommandError::InvalidConstraint(ref m)) if m == "constraint entity 9 does not exist"
    ));
    let mut same = constraint(2, "Same", 1);
    same.kind = ConstraintKind::Coincident {
        first: SketchPoint { entity_id: 1, anchor: PointAnchor::Start },
        second: SketchPoint { entity_id: 1, anchor: PointAnchor::Start },
    };
    assert!(matches!(
        CadCommand::CreateConstraint { constraint: same, dimension_fault: None }.validate(&d),
        Err(CommandError::InvalidConstraint(ref m)) if m == "a constraint must reference two distinct sketch points"
    ));
    let mut centre = constraint(2, "Centre", 1);
    centre.kind = ConstraintKind::Horizontal {
        segment: SketchSegment {
            start: SketchPoint { entity_id: 1, anchor: PointAnchor::Start },
            end: SketchPoint { entity_id: 1, anchor: PointAnchor::Center },
        },
    };
    assert!(matches!(
        CadCommand::CreateConstraint { constraint: centre, dimension_fault: None }.validate(&d),
        Err(CommandError::InvalidConstraint(ref m)) if m == "constraint anchor Center is not supported by entity 1"
    ));
    let mut radius = constraint(2, "Radius", 1);
    radius.kind = ConstraintKind::Radius { entity_id: 1, value: ParameterExpression::new("5").ok().unwrap() };
    assert!(matches!(
        CadCommand::CreateConstraint { constraint: radius, dimension_fault: None }.validate(&d),
        Err(CommandError::InvalidConstraint(ref m)) if m == "radius constraints require a circle or arc entity"
    ));
    let mut distance = constraint(2, "Span", 1);
    distance.kind = ConstraintKind::Distance {
        first: SketchPoint { entity_id: 1, anchor: PointAnchor::Start },
        second: SketchPoint { entity_id: 1, anchor: PointAnchor::End },
        value: ParameterExpression::new("0 - 4").ok().unwrap(),
    };
    assert!(matches!(
        CadCommand::CreateConstraint {
            constraint: distance,
            dimension_fault: Some("distance constraint value must not be negative".to_owned()),
        }
        .validate(&d),
        Err(CommandError::InvalidConstraint(ref m)) if m == "distance constraint value must not be negative"
    ));
    assert!(matches!(CadCommand::DeleteConstraint { id: 2 }.validate(&d), Err(CommandError::ConstraintMissing(2))));
}

#[test]
fn the_document_check_runs_in_table_order() {
    let mut d = CadDocument::new("Test");
    assert!(d.validate(&no_facts()).is_ok());

    d.schema_version = 4;
    assert!(matches!(d.validate(&no_facts()), Err(CommandError::UnsupportedSchemaVersion(4))));
    d.schema_version = 5;

    d.parameters.insert(2, parameter(3, "width", None));
    assert!(matches!(
        d.validate(&no_facts()),
        Err(CommandError::InvalidDocument(ref m)) if m == "parameter map key 2 does not match parameter id 3"
    ));
    d.parameters.insert(2, parameter(2, "width", None));
    d.parameters.insert(1, parameter(1, "width", None));
    assert!(matches!(
        d.validate(&no_facts()),
        Err(CommandError::InvalidParameter(ref m)) if m == "parameter name width is not unique"
    ));
    d.parameters.remove(&2);

    let mut e = entity(5, 1, "Bracket");
    e.parameter_refs = vec![1, 6];
    d.entities.insert(5, e);
    assert!(matches!(
        d.validate(&no_facts()),
        Err(CommandError::InvalidReference(ref m)) if m == "entity 5 references missing parameter 6"
    ));
    d.entities.get_mut(&5).unwrap().parameter_refs = vec![1];

    let mut profile = entity(6, 1, "Profile");
    profile.kind = EntityShape::SketchProfile { closed: false, points: 2 };
    d.entities.insert(6, profile);
    let mut fixed = constraint(3, "Fixed", 6);
    fixed.kind = ConstraintKind::Coincident {
        first: SketchPoint { entity_id: 6, anchor: PointAnchor::Vertex { index: 1 } },
        second: SketchPoint { entity_id: 6, anchor: PointAnchor::Vertex { index: 2 } },
    };
    d.constraints.insert(3, fixed);
    assert!(matches!(
        d.validate(&no_facts()),
        Err(CommandError::InvalidConstraint(ref m)) if m == "constraint anchor Vertex { index: 2 } is missing on entity 6"
    ));
    d.constraints.insert(3, constraint(3, "Fixed", 5));
    let mut span = constraint(4, "Span", 5);
    span.kind = ConstraintKind::Distance {
        first: SketchPoint { entity_id: 5, anchor: PointAnchor::Start },
        second: SketchPoint { entity_id: 5, anchor: PointAnchor::End },
        value: ParameterExpression::new("width").ok().unwrap(),
    };
    d.constraints.insert(4, span);
    let mut facts = no_facts();
    facts.dimension_faults.insert(4, "distance constraint value must not be negative".to_owned());
    assert!(matches!(
        d.validate(&facts),
        Err(CommandError::InvalidConstraint(ref m)) if m == "distance constraint value must not be negative"
    ));
    facts.evaluation_fault = Some("unknown parameter depth".to_owned());
    assert!(matches!(
        d.validate(&facts),
        Err(CommandError::InvalidParameter(ref m)) if m == "unknown parameter depth"
    ));

    assert!(matches!(
        d.validate(&no_facts()),
        Err(CommandError::InvalidDocument(ref m)) if m == "next entity id 1 is behind existing ids"
    ));
    d.next_entity_id = 7;
    d.next_parameter_id = 2;
    d.next_constraint_id = 5;
    assert!(d.validate(&no_facts()).is_ok());
}

#[test]
fn labels_name_the_change() {
    assert_eq!(CommandTransaction::new(vec![]).label(), "No changes");
    assert_eq!(
        CommandTransaction::new(vec![CadCommand::CreateLayer { layer: layer(2, "Roof", false) }]).label(),
        "Create layer Roof"
    );
    assert_eq!(CadCommand::DeleteEntity { id: 12 }.label(), "Delete entity 12");
    assert_eq!(CadCommand::UpdateEntity { entity: entity(1, 1, "Wall") }.label(), "Update Wall");
    assert_eq!(CadCommand::SetParameter { parameter: parameter(1, "width", None) }.label(), "Set parameter width");
    assert_eq!(
        CommandTransaction::new(vec![CadCommand::DeleteLayer { id: 2 }, CadCommand::DeleteParameter { id: 3 }])
            .label(),
        "2 actions"
    );
}

#[test]
fn deleting_what_was_just_created_restores_the_tables() {
    let mut d = CadDocument::new("Test");
    run(&mut d, vec![CadCommand::CreateEntity { entity: entity(1, 1, "Keep") }]).ok().unwrap();
    let before = outline(&d);
    run(&mut d, vec![CadCommand::CreateLayer { layer: layer(2, "Temp", false) }]).ok().unwrap();
    run(&mut d, vec![CadCommand::DeleteLayer { id: 2 }]).ok().unwrap();
    run(&mut d, vec![CadCommand::CreateEntity { entity: entity(2, 1, "Temp") }]).ok().unwrap();
    run(&mut d, vec![CadCommand::DeleteEntity { id: 2 }]).ok().unwrap();
    let after = outline(&d);
    assert_eq!((&after.0, &after.1), (&before.0, &before.1));
    // Every id stays below the next id of its kind.
    assert!(after.0.iter().all(|k| *k < d.next_layer_id));
    assert!(after.1.iter().all(|k| *k < d.next_entity_id));
}

#[test]
fn a_closed_sketch_needs_three_points() {
    let d = CadDocument::new("Test");
    let sketch = |closed: bool, points: u64| {
        let mut e = entity(1, 1, "Sketch");
        e.kind = EntityShape::SketchProfile { closed, points };
        CadCommand::CreateEntity { entity: e }
    };
    assert!(matches!(
        sketch(true, 2).validate(&d),
        Err(CommandError::InvalidGeometry(ref m)) if m == "a closed sketch needs at least three points"
    ));
    assert!(sketch(true, 3).validate(&d).is_ok());
    assert!(sketch(false, 2).validate(&d).is_ok());
}

#[test]
fn kinds_belong_to_domains_and_the_summary_lists_them_once() {
    assert_eq!(EntityShape::Text.domain(), Domain::Drafting);
    assert_eq!(EntityShape::Extrude { profile: 1 }.domain(), Domain::Mechanical);
    assert_eq!(EntityShape::Room.domain(), Domain::Architecture);

    let mut d = CadDocument::new("Test");
    let mut wall = entity(1, 1, "Wall");
    wall.kind = EntityShape::Wall;
    let mut room = entity(2, 1, "Room");
    room.kind = EntityShape::Room;
    run(
        &mut d,
        vec![
            CadCommand::CreateEntity { entity: wall },
            CadCommand::CreateEntity { entity: room },
            CadCommand::CreateEntity { entity: entity(3, 1, "Line") },
        ],
    )
    .ok()
    .unwrap();
    d.metadata.title = "Plan".to_owned();
    let summary = d.summary();
    assert_eq!(summary.title, "Plan");
    assert_eq!(summary.entity_count, 3);
    assert_eq!(summary.layer_count, 1);
    assert_eq!(summary.domains, vec![Domain::Drafting, Domain::Architecture]);
}

#[test]
fn migration_upgrades_earlier_schemas_and_refuses_later_ones() {
    let mut d = CadDocument::new("Test");
    run(&mut d, vec![CadCommand::CreateEntity { entity: entity(4, 1, "Line") }]).ok().unwrap();
    d.schema_version = 3;
    d.next_layer_id = 0;
    d.next_entity_id = 0;
    assert!(d.migrate_to_current(&no_facts()).is_ok());
    assert_eq!(d.schema_version, 5);
    assert_eq!([d.next_layer_id, d.next_entity_id, d.next_parameter_id, d.next_constraint_id], [2, 5, 1, 1]);

    d.schema_version = 9;
    assert!(matches!(d.migrate_to_current(&no_facts()), Err(CommandError::UnsupportedSchemaVersion(9))));
    assert_eq!(d.schema_version, 9);

    d.schema_version = 5;
    d.next_entity_id = 2;
    assert!(matches!(
        d.migrate_to_current(&no_facts()),
        Err(CommandError::InvalidDocument(ref m)) if m == "next entity id 2 is behind existing ids"
    ));
}

#[test]
fn formula_cycles_and_unknown_names_are_refused_whatever_the_host_reports() {
    let mut document = CadDocument::new("Cycles");
    let before = outline(&document);
    let cycle = CommandTransaction::new(vec![
        CadCommand::SetParameter { parameter: parameter(1, "a", Some("b + 1")) },
        CadCommand::SetParameter { parameter: parameter(2, "b", Some("a + 1")) },
    ]);
    let error = cycle.apply(&mut document, &no_facts()).err().unwrap();
    assert!(matches!(error, CommandError::InvalidParameter(ref m) if m == "parameter a cannot be resolved from literal values"));
    assert_eq!(outline(&document), before);

    let unknown = CommandTransaction::new(vec![
        CadCommand::SetParameter { parameter: parameter(1, "width", None) },
        CadCommand::SetParameter { parameter: parameter(2, "depth", Some("height * 2")) },
    ]);
    let error = unknown.apply(&mut document, &no_facts()).err().unwrap();
    assert!(matches!(error, CommandError::InvalidParameter(ref m) if m == "parameter depth cannot be resolved from literal values"));
    assert_eq!(outline(&document), before);

    let chain = CommandTransaction::new(vec![
        CadCommand::SetParameter { parameter: parameter(1, "width", None) },
        CadCommand::SetParameter { parameter: parameter(2, "depth", Some("width * 2")) },
        CadCommand::SetParameter { parameter: parameter(3, "area", Some("width * depth")) },
    ]);
    assert!(chain.apply(&mut document, &no_facts()).is_ok());
    assert_eq!(document.parameters.len(), 3);
}
