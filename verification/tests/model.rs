use cadx_core::assembly::{
    AssemblyError, AssemblyRecord, ComponentDefinition, ComponentKind, OccurrenceRecord,
};
use cadx_core::feature::{BooleanOperation, DocumentError, FeatureKind, FeatureLink, FeatureNode, SketchPlane};
use cadx_core::model::{AssemblyFacts, CadDocument, CommandFacts, FeatureFacts, ModelCommandRecord, ModelFacts, SolvedRegionFacts};

fn kind_of(link: &FeatureLink) -> FeatureKind {
    match link {
        FeatureLink::Standalone => FeatureKind::Box,
        FeatureLink::SketchProfile { .. } => FeatureKind::Extrusion,
        FeatureLink::Loft { .. } => FeatureKind::Loft,
        FeatureLink::Boolean { operation, .. } => FeatureKind::Boolean(*operation),
        FeatureLink::EdgeModifier { .. } => FeatureKind::Chamfer,
        FeatureLink::DatumPlane { .. } => FeatureKind::DatumPlane,
        FeatureLink::DatumPoint { .. } => FeatureKind::DatumPoint,
        FeatureLink::Sketch { .. } => FeatureKind::Sketch,
    }
}

fn node(id: u64, link: FeatureLink) -> FeatureNode {
    FeatureNode { id, kind: kind_of(&link), link, name: format!("Feature {id}"), visible: true, material: None }
}

fn create(link: FeatureLink) -> ModelCommandRecord {
    ModelCommandRecord::Create { kind: kind_of(&link), link, name: String::new() }
}

fn no_facts() -> ModelFacts {
    ModelFacts { features: Vec::new(), assemblies: Vec::new() }
}

fn occurrence(id: u64, definition_id: u64, parent_id: Option<u64>, features: Vec<u64>) -> OccurrenceRecord {
    OccurrenceRecord {
        id,
        name: format!("occurrence {id}"),
        definition_id,
        parent_id,
        suppressed: false,
        feature_ids: features,
        source: None,
        transform_fault: None,
    }
}

fn assembly(id: u64, occurrences: Vec<OccurrenceRecord>) -> AssemblyRecord {
    AssemblyRecord {
        id,
        name: format!("assembly {id}"),
        definitions: vec![
            ComponentDefinition { id: 1, name: "root".to_owned(), kind: ComponentKind::Assembly, source: None },
            ComponentDefinition { id: 2, name: "part".to_owned(), kind: ComponentKind::Part, source: None },
        ],
        occurrences,
        mates: Vec::new(),
    }
}

fn model() -> CadDocument {
    CadDocument {
        name: "  Bracket  ".to_owned(),
        features: vec![
            node(1, FeatureLink::Standalone),
            node(2, FeatureLink::Standalone),
            node(3, FeatureLink::Boolean { operation: BooleanOperation::Union, left: 1, right: 2 }),
            node(4, FeatureLink::Sketch { plane: SketchPlane::WorldXy }),
        ],
        assemblies: vec![assembly(
            7,
            vec![occurrence(1, 1, None, vec![]), occurrence(2, 2, Some(1), vec![1, 2])],
        )],
        next_id: 1,
        next_assembly_id: 1,
    }
}

#[test]
fn a_sound_model_gets_fresh_next_ids_and_a_tidy_name() {
    let mut m = model();
    assert!(m.validate_and_repair(&no_facts()).is_ok());
    assert_eq!(m.next_id, 5);
    assert_eq!(m.next_assembly_id, 8);
    assert_eq!(m.name, "Bracket");

    let mut blank = CadDocument {
        name: "   ".to_owned(),
        features: Vec::new(),
        assemblies: Vec::new(),
        next_id: 9,
        next_assembly_id: 9,
    };
    assert!(blank.validate_and_repair(&no_facts()).is_ok());
    assert_eq!((blank.next_id, blank.next_assembly_id), (1, 1));
    assert_eq!(blank.name, "Untitled");
}

#[test]
fn feature_ids_and_host_faults_are_reported_in_order() {
    let mut m = model();
    m.features[1].id = 1;
    assert!(matches!(m.validate_and_repair(&no_facts()), Err(DocumentError::InvalidFeatureId(1))));
    assert_eq!(m.next_id, 1);
    assert_eq!(m.name, "  Bracket  ");

    let mut m = model();
    let facts = ModelFacts {
        features: vec![
            FeatureFacts { definition_fault: None, has_material: false, material_fault: None },
            FeatureFacts {
                definition_fault: Some(DocumentError::InvalidParameter(
                    "feature 2 translation must contain finite values".to_owned(),
                )),
                has_material: false,
                material_fault: None,
            },
        ],
        assemblies: Vec::new(),
    };
    assert!(matches!(
        m.validate_and_repair(&facts),
        Err(DocumentError::InvalidParameter(ref s)) if s == "feature 2 translation must contain finite values"
    ));

    let facts = ModelFacts {
        features: vec![
            FeatureFacts { definition_fault: None, has_material: false, material_fault: None },
            FeatureFacts { definition_fault: None, has_material: false, material_fault: None },
            FeatureFacts { definition_fault: None, has_material: false, material_fault: None },
            FeatureFacts { definition_fault: None, has_material: true, material_fault: None },
        ],
        assemblies: Vec::new(),
    };
    assert!(matches!(
        m.validate_and_repair(&facts),
        Err(DocumentError::InvalidParameter(ref s)) if s == "feature 4 cannot assign material to reference geometry"
    ));
}

#[test]
fn dependency_cycles_are_refused() {
    let mut m = model();
    m.features[0] = node(1, FeatureLink::Boolean { operation: BooleanOperation::Union, left: 3, right: 2 });
    assert!(matches!(m.validate_and_repair(&no_facts()), Err(DocumentError::DependencyCycle { .. })));
}

#[test]
fn occurrences_must_own_existing_solids_once() {
    let mut m = model();
    m.assemblies[0].occurrences[1].feature_ids = vec![4];
    assert!(matches!(
        m.validate_and_repair(&no_facts()),
        Err(DocumentError::Assembly(AssemblyError::NonSolidFeature { occurrence: 2, feature: 4 }))
    ));

    let mut m = model();
    m.assemblies.push(assembly(8, vec![occurrence(1, 1, None, vec![]), occurrence(5, 2, Some(1), vec![2])]));
    assert!(matches!(
        m.validate_and_repair(&no_facts()),
        Err(DocumentError::FeatureInMultipleAssemblies {
            id: 2,
            first_assembly: 7,
            first_occurrence: 2,
            second_assembly: 8,
            second_occurrence: 5
        })
    ));

    let mut m = model();
    m.assemblies.push(assembly(7, vec![occurrence(1, 1, None, vec![])]));
    assert!(matches!(
        m.validate_and_repair(&no_facts()),
        Err(DocumentError::Assembly(AssemblyError::InvalidAssemblyId(7)))
    ));

    let mut m = model();
    let facts = ModelFacts {
        features: Vec::new(),
        assemblies: vec![AssemblyFacts { hierarchy_fault: None, mismatches: vec![(2, 2)] }],
    };
    assert!(matches!(
        m.validate_and_repair(&facts),
        Err(DocumentError::Assembly(AssemblyError::FeatureTransformMismatch { occurrence: 2, feature: 2 }))
    ));
}

#[test]
fn active_features_may_not_use_suppressed_ones() {
    let mut m = model();
    m.assemblies[0].occurrences[1].suppressed = true;
    assert!(matches!(
        m.validate_and_repair(&no_facts()),
        Err(DocumentError::SuppressedFeatureDependency { feature: 3, dependency: 1 })
    ));
    // Without the dependency the model is sound again.
    m.features[2] = node(3, FeatureLink::Standalone);
    assert!(m.validate_and_repair(&no_facts()).is_ok());
}

#[test]
fn ids_that_cannot_advance_overflow() {
    let mut m = model();
    m.features[1].id = u64::MAX;
    m.features[2] = node(3, FeatureLink::Boolean { operation: BooleanOperation::Union, left: 1, right: u64::MAX });
    m.assemblies[0].occurrences[1].feature_ids = vec![1];
    assert!(matches!(m.validate_and_repair(&no_facts()), Err(DocumentError::IdOverflow)));
    assert_eq!(m.next_id, 1);

    let mut m = model();
    m.assemblies[0].id = u64::MAX;
    assert!(matches!(m.validate_and_repair(&no_facts()), Err(DocumentError::IdOverflow)));
    // The feature id moved on before the assembly id overflowed.
    assert_eq!(m.next_id, 5);
    assert_eq!(m.next_assembly_id, 1);
}

#[test]
fn validates_and_repairs_loaded_document_ids() {
    // A loaded model whose next id lags behind its single sphere.
    let mut document = CadDocument {
        name: "Untitled".to_owned(),
        features: vec![node(1, FeatureLink::Standalone)],
        assemblies: Vec::new(),
        next_id: 1,
        next_assembly_id: 1,
    };
    assert!(document.validate_and_repair(&no_facts()).is_ok());
    assert_eq!(document.next_id, 2);
}

#[test]
fn feature_graph_rejects_cycles_from_persisted_data() {
    let mut document = CadDocument {
        name: "cycle".to_owned(),
        features: vec![
            node(1, FeatureLink::Boolean { operation: BooleanOperation::Union, left: 2, right: 2 }),
            node(2, FeatureLink::Boolean { operation: BooleanOperation::Union, left: 1, right: 1 }),
        ],
        assemblies: Vec::new(),
        next_id: 3,
        next_assembly_id: 1,
    };
    assert!(matches!(document.validate_and_repair(&no_facts()), Err(DocumentError::InvalidParameter(_))));

    document.features[0].link = FeatureLink::Boolean { operation: BooleanOperation::Union, left: 2, right: 1 };
    document.features[1].link = FeatureLink::Boolean { operation: BooleanOperation::Union, left: 1, right: 2 };
    assert!(matches!(
        document.validate_and_repair(&no_facts()),
        Err(DocumentError::DependencyCycle { cycle }) if cycle == vec![1, 2]
    ));
}

#[test]
fn a_sketch_on_a_datum_must_name_one() {
    let mut m = model();
    m.features[3] = node(4, FeatureLink::Sketch { plane: SketchPlane::DatumPlane { datum_id: 0 } });
    assert!(matches!(
        m.validate_and_repair(&no_facts()),
        Err(DocumentError::InvalidParameter(ref s)) if s == "datum-attached sketches must reference a non-zero datum feature id"
    ));
}

#[test]
fn lookups_find_features_assemblies_and_owners() {
    let m = model();
    assert_eq!(m.feature(3).map(|n| n.id), Some(3));
    assert!(m.feature(9).is_none());
    assert_eq!(m.assembly(7).map(|a| a.name.clone()), Some("assembly 7".to_owned()));
    assert!(m.assembly(8).is_none());
    let (a, o) = m.assembly_occurrence_for_feature(2).unwrap();
    assert_eq!((a.id, o.id), (7, 2));
    assert!(m.assembly_occurrence_for_feature(3).is_none());
    let instance = m.assembly_feature_instance(2).unwrap();
    assert_eq!(
        (instance.assembly_id, instance.definition_id, instance.occurrence_id, instance.body_slot),
        (7, 2, 2, 1)
    );
    assert_eq!(m.dependents(1).iter().map(|n| n.id).collect::<Vec<_>>(), vec![3]);
    assert!(m.dependents(3).is_empty());
    assert_eq!(m.next_feature_id(), 1);
    assert_eq!(m.feature_graph().ok().unwrap().order(), &[1, 2, 3, 4]);
    assert!(m.suppressed_assembly_feature_ids().ok().unwrap().is_empty());

    let mut suppressed = model();
    suppressed.assemblies[0].occurrences[0].suppressed = true;
    let mut ids = suppressed.suppressed_assembly_feature_ids().ok().unwrap();
    ids.sort();
    assert_eq!(ids, vec![1, 2]);
}

#[test]
fn every_placed_body_is_listed_with_its_last_placement() {
    let m = model();
    let all = m.assembly_feature_instances();
    assert_eq!(all.keys().copied().collect::<Vec<_>>(), vec![1, 2]);
    assert_eq!(all[&1].body_slot, 0);
    assert_eq!((all[&2].assembly_id, all[&2].occurrence_id, all[&2].body_slot), (7, 2, 1));

    let mut twice = model();
    twice.assemblies.push(assembly(8, vec![occurrence(5, 1, None, vec![2])]));
    let all = twice.assembly_feature_instances();
    assert_eq!((all[&2].assembly_id, all[&2].occurrence_id, all[&2].body_slot), (8, 5, 0));
    assert_eq!(all[&1].assembly_id, 7);
}

#[test]
fn features_in_use_or_owned_cannot_be_deleted() {
    let mut m = model();
    assert!(matches!(m.delete_feature(1), Err(DocumentError::FeatureInUse { id: 1, dependent: 3 })));
    assert!(matches!(m.delete_feature(9), Err(DocumentError::FeatureNotFound(9))));
    assert_eq!(m.features.len(), 4);
    assert!(m.delete_feature(3).is_ok());
    assert_eq!(m.features.iter().map(|n| n.id).collect::<Vec<_>>(), vec![1, 2, 4]);
    assert!(matches!(
        m.delete_feature(1),
        Err(DocumentError::FeatureInAssembly { id: 1, assembly: 7, occurrence: 2 })
    ));
    assert!(m.delete_feature(4).is_ok());
    assert_eq!(m.features.iter().map(|n| n.id).collect::<Vec<_>>(), vec![1, 2]);
}

#[test]
fn assemblies_are_deleted_by_id() {
    let mut m = model();
    assert!(matches!(m.delete_assembly(8), Err(DocumentError::AssemblyNotFound(8))));
    assert_eq!(m.assemblies.len(), 1);
    assert!(m.delete_assembly(7).is_ok());
    assert!(m.assemblies.is_empty());
    assert_eq!(m.features.len(), 4);
}

#[test]
fn suppressing_an_occurrence_is_refused_while_active_features_consume_its_bodies() {
    let mut m = model();
    assert!(matches!(
        m.set_occurrence_suppressed(9, 2, true),
        Err(DocumentError::AssemblyNotFound(9))
    ));
    assert!(matches!(
        m.set_occurrence_suppressed(7, 5, true),
        Err(DocumentError::OccurrenceNotFound { assembly: 7, occurrence: 5 })
    ));
    assert!(matches!(
        m.set_occurrence_suppressed(7, 2, true),
        Err(DocumentError::SuppressedFeatureDependency { feature: 3, dependency: 1 })
    ));
    assert!(!m.assemblies[0].occurrences[1].suppressed);
    assert!(m.delete_feature(3).is_ok());
    assert!(m.set_occurrence_suppressed(7, 1, true).is_ok());
    assert!(m.assemblies[0].occurrences[0].suppressed);
    let mut ids = m.suppressed_assembly_feature_ids().ok().unwrap();
    ids.sort();
    assert_eq!(ids, vec![1, 2]);
    assert!(m.set_occurrence_suppressed(7, 1, false).is_ok());
    assert!(m.suppressed_assembly_feature_ids().ok().unwrap().is_empty());
}

#[test]
fn sketch_planes_need_a_usable_source_and_an_acyclic_graph() {
    let mut m = model();
    assert!(matches!(
        m.set_sketch_plane(4, SketchPlane::DatumPlane { datum_id: 9 }),
        Err(DocumentError::FeatureNotFound(9))
    ));
    assert!(matches!(
        m.set_sketch_plane(4, SketchPlane::DatumPlane { datum_id: 1 }),
        Err(DocumentError::PrimitiveMismatch { id: 1, expected: "datum plane" })
    ));
    assert!(matches!(
        m.set_sketch_plane(4, SketchPlane::PlanarFace { feature_id: 4 }),
        Err(DocumentError::PrimitiveMismatch { id: 4, expected: "solid feature" })
    ));
    assert!(matches!(
        m.set_sketch_plane(3, SketchPlane::WorldXz),
        Err(DocumentError::PrimitiveMismatch { id: 3, expected: "sketch" })
    ));
    assert!(matches!(m.set_sketch_plane(8, SketchPlane::WorldXz), Err(DocumentError::FeatureNotFound(8))));
    assert!(m.set_sketch_plane(4, SketchPlane::PlanarFace { feature_id: 3 }).is_ok());
    assert!(matches!(
        m.features[3].link,
        FeatureLink::Sketch { plane: SketchPlane::PlanarFace { feature_id: 3 } }
    ));

    let mut looped = CadDocument {
        name: "loop".to_owned(),
        features: vec![
            node(4, FeatureLink::Sketch { plane: SketchPlane::WorldXy }),
            node(6, FeatureLink::SketchProfile { sketch_id: 4 }),
            node(5, FeatureLink::DatumPlane { face_feature: 6 }),
        ],
        assemblies: Vec::new(),
        next_id: 7,
        next_assembly_id: 1,
    };
    assert!(matches!(
        looped.set_sketch_plane(4, SketchPlane::DatumPlane { datum_id: 5 }),
        Err(DocumentError::DependencyCycle { .. })
    ));
    assert!(matches!(looped.features[0].link, FeatureLink::Sketch { plane: SketchPlane::WorldXy }));
    assert!(looped.set_sketch_plane(4, SketchPlane::WorldXz).is_ok());
}

fn clear() -> CommandFacts {
    CommandFacts { definition_fault: None, placement_fault: None }
}

#[test]
fn commands_create_number_and_refuse_features() {
    let mut m = model();
    m.next_id = 5;
    let id = m.apply(create(FeatureLink::SketchProfile { sketch_id: 4 }), &clear());
    assert!(matches!(id, Ok(Some(5))));
    assert_eq!(m.next_id, 6);
    assert_eq!(m.features.iter().map(|n| n.id).collect::<Vec<_>>(), vec![1, 2, 3, 4, 5]);

    assert!(matches!(
        m.apply(create(FeatureLink::SketchProfile { sketch_id: 9 }), &clear()),
        Err(DocumentError::FeatureNotFound(9))
    ));
    assert!(matches!(
        m.apply(create(FeatureLink::SketchProfile { sketch_id: 3 }), &clear()),
        Err(DocumentError::PrimitiveMismatch { id: 3, expected: "sketch" })
    ));
    let bad = CommandFacts {
        definition_fault: Some(DocumentError::InvalidParameter("box size must be positive".to_owned())),
        placement_fault: None,
    };
    assert!(matches!(
        m.apply(create(FeatureLink::Standalone), &bad),
        Err(DocumentError::InvalidParameter(ref s)) if s == "box size must be positive"
    ));
    assert_eq!(m.next_id, 6);

    let mut suppressed = model();
    suppressed.next_id = 5;
    assert!(suppressed.delete_feature(3).is_ok());
    assert!(suppressed.set_occurrence_suppressed(7, 2, true).is_ok());
    assert!(matches!(
        suppressed.apply(
            create(FeatureLink::Boolean { operation: BooleanOperation::Union, left: 2, right: 4 }),
            &clear(),
        ),
        Err(DocumentError::SuppressedFeatureDependency { feature: 5, dependency: 2 })
    ));

    let mut full = model();
    full.next_id = u64::MAX;
    assert!(matches!(
        full.apply(create(FeatureLink::Standalone), &clear()),
        Err(DocumentError::IdOverflow)
    ));
}

#[test]
fn commands_dispatch_to_deletion_suppression_and_planes() {
    let mut m = model();
    assert!(matches!(m.apply(ModelCommandRecord::Delete { id: 1 }, &clear()), Err(DocumentError::FeatureInUse { id: 1, dependent: 3 })));
    assert!(matches!(m.apply(ModelCommandRecord::Delete { id: 3 }, &clear()), Ok(None)));
    assert!(matches!(
        m.apply(ModelCommandRecord::SetOccurrenceSuppressed { assembly_id: 7, occurrence_id: 2, suppressed: true }, &clear()),
        Ok(None)
    ));
    assert!(matches!(
        m.apply(ModelCommandRecord::SetSketchPlane { id: 4, plane: SketchPlane::WorldYz }, &clear()),
        Ok(None)
    ));
    assert!(matches!(m.apply(ModelCommandRecord::DeleteAssembly { id: 7 }, &clear()), Ok(None)));
    assert!(m.assemblies.is_empty());
}

#[test]
fn transactions_apply_every_command_or_none() {
    let mut m = model();
    m.next_id = 5;
    let commands = vec![
        create(FeatureLink::Standalone),
        ModelCommandRecord::Delete { id: 3 },
        create(FeatureLink::SketchProfile { sketch_id: 4 }),
        ModelCommandRecord::SetSketchPlane { id: 4, plane: SketchPlane::WorldYz },
    ];
    let ids = m.apply_transaction(commands, &Vec::new());
    assert!(matches!(ids, Ok(ref v) if v == &vec![5, 6]));
    assert_eq!(m.next_id, 7);
    assert_eq!(m.features.iter().map(|n| n.id).collect::<Vec<_>>(), vec![1, 2, 4, 5, 6]);
    assert!(matches!(m.features[2].link, FeatureLink::Sketch { plane: SketchPlane::WorldYz }));

    let mut n = model();
    n.next_id = 5;
    let before: Vec<u64> = n.features.iter().map(|f| f.id).collect();
    let suppressed_before = n.assemblies[0].occurrences.iter().map(|o| o.suppressed).collect::<Vec<_>>();
    let commands = vec![
        create(FeatureLink::Standalone),
        ModelCommandRecord::Delete { id: 3 },
        ModelCommandRecord::SetOccurrenceSuppressed { assembly_id: 7, occurrence_id: 2, suppressed: true },
        ModelCommandRecord::Delete { id: 99 },
        create(FeatureLink::Standalone),
    ];
    assert!(matches!(n.apply_transaction(commands, &Vec::new()), Err(DocumentError::FeatureNotFound(99))));
    assert_eq!(n.next_id, 5);
    assert_eq!(n.features.iter().map(|f| f.id).collect::<Vec<_>>(), before);
    assert_eq!(n.assemblies[0].occurrences.iter().map(|o| o.suppressed).collect::<Vec<_>>(), suppressed_before);

    let bad = CommandFacts {
        definition_fault: Some(DocumentError::InvalidParameter("radius must be positive".to_owned())),
        placement_fault: None,
    };
    let mut p = model();
    p.next_id = 5;
    let commands = vec![
        create(FeatureLink::Standalone),
        create(FeatureLink::Standalone),
    ];
    assert!(matches!(
        p.apply_transaction(commands, &vec![clear(), bad]),
        Err(DocumentError::InvalidParameter(ref s)) if s == "radius must be positive"
    ));
    assert_eq!(p.next_id, 5);
    assert_eq!(p.features.len(), 4);
}

#[test]
fn a_command_on_equal_models_has_one_outcome() {
    let mut first = model();
    let mut second = model();
    first.next_id = 5;
    second.next_id = 5;
    let command = || create(FeatureLink::SketchProfile { sketch_id: 4 });
    let a = first.apply(command(), &clear());
    let b = second.apply(command(), &clear());
    assert!(matches!((a, b), (Ok(Some(5)), Ok(Some(5)))));
    assert_eq!(
        first.features.iter().map(|n| n.id).collect::<Vec<_>>(),
        second.features.iter().map(|n| n.id).collect::<Vec<_>>()
    );
    assert_eq!(first.next_id, second.next_id);
    let x = first.apply(ModelCommandRecord::Delete { id: 1 }, &clear());
    let y = second.apply(ModelCommandRecord::Delete { id: 1 }, &clear());
    assert!(matches!(x, Err(DocumentError::FeatureInUse { id: 1, dependent: 3 })));
    assert!(matches!(y, Err(DocumentError::FeatureInUse { id: 1, dependent: 3 })));
}

#[test]
fn created_features_are_named_shown_and_plain() {
    let mut m = model();
    m.next_id = 5;
    let command = ModelCommandRecord::Create {
        link: FeatureLink::Standalone,
        kind: FeatureKind::Cylinder,
        name: "   ".to_owned(),
    };
    assert!(matches!(m.apply(command, &clear()), Ok(Some(5))));
    let made = m.features.last().unwrap();
    assert_eq!(made.name, "Cylinder");
    assert!(made.visible);
    assert!(made.material.is_none());
    let named = ModelCommandRecord::Create {
        link: FeatureLink::Boolean { operation: BooleanOperation::Subtract, left: 1, right: 2 },
        kind: FeatureKind::Boolean(BooleanOperation::Subtract),
        name: "  Pocket  ".to_owned(),
    };
    assert!(matches!(m.apply(named, &clear()), Ok(Some(6))));
    assert_eq!(m.features.last().unwrap().name, "Pocket");
    let unnamed = ModelCommandRecord::Create {
        link: FeatureLink::Boolean { operation: BooleanOperation::Subtract, left: 1, right: 2 },
        kind: FeatureKind::Boolean(BooleanOperation::Subtract),
        name: String::new(),
    };
    assert!(matches!(m.apply(unnamed, &clear()), Ok(Some(7))));
    assert_eq!(m.features.last().unwrap().name, "Subtract");
}

#[test]
fn duplicates_copy_their_source_under_a_new_name() {
    let mut m = model();
    m.next_id = 5;
    assert!(m.apply(ModelCommandRecord::SetVisibility { id: 2, visible: false }, &clear()).is_ok());
    assert!(m.apply(ModelCommandRecord::SetMaterial { id: 2, name: " Steel ".to_owned() }, &clear()).is_ok());
    assert!(matches!(m.apply(ModelCommandRecord::Duplicate { id: 2, name: " ".to_owned() }, &clear()), Ok(Some(5))));
    let copy = m.features.last().unwrap();
    assert_eq!(copy.id, 5);
    assert_eq!(copy.name, "Feature 2 copy");
    assert!(!copy.visible);
    assert_eq!(copy.material.as_deref(), Some("Steel"));
    assert!(matches!(m.apply(ModelCommandRecord::Duplicate { id: 3, name: "Joined".to_owned() }, &clear()), Ok(Some(6))));
    assert_eq!(m.features.last().unwrap().name, "Joined");
    assert!(matches!(
        m.apply(ModelCommandRecord::Duplicate { id: 42, name: String::new() }, &clear()),
        Err(DocumentError::FeatureNotFound(42))
    ));
    let off = CommandFacts {
        definition_fault: None,
        placement_fault: Some(DocumentError::InvalidParameter("translation must contain finite values".to_owned())),
    };
    assert!(matches!(
        m.apply(ModelCommandRecord::Duplicate { id: 42, name: String::new() }, &off),
        Err(DocumentError::InvalidParameter(ref s)) if s == "translation must contain finite values"
    ));
    assert_eq!(m.next_id, 7);
}

#[test]
fn renames_visibility_and_materials_edit_one_feature() {
    let mut m = model();
    assert!(m.apply(ModelCommandRecord::Rename { id: 1, name: "  Base plate ".to_owned() }, &clear()).is_ok());
    assert_eq!(m.features[0].name, "Base plate");
    assert!(m.apply(ModelCommandRecord::Rename { id: 1, name: "".to_owned() }, &clear()).is_ok());
    assert_eq!(m.features[0].name, "Feature");
    assert!(matches!(
        m.apply(ModelCommandRecord::Rename { id: 9, name: "x".to_owned() }, &clear()),
        Err(DocumentError::FeatureNotFound(9))
    ));
    assert!(m.apply(ModelCommandRecord::SetVisibility { id: 3, visible: false }, &clear()).is_ok());
    assert!(!m.features[2].visible);
    assert!(matches!(
        m.apply(ModelCommandRecord::SetMaterial { id: 1, name: "  ".to_owned() }, &clear()),
        Err(DocumentError::InvalidParameter(ref s)) if s == "material name must not be empty"
    ));
    assert!(matches!(
        m.apply(ModelCommandRecord::SetMaterial { id: 1, name: "x".repeat(81) }, &clear()),
        Err(DocumentError::InvalidParameter(ref s)) if s == "material name must not exceed 80 characters"
    ));
    assert!(matches!(
        m.apply(ModelCommandRecord::SetMaterial { id: 4, name: "Steel".to_owned() }, &clear()),
        Err(DocumentError::PrimitiveMismatch { id: 4, expected: "solid feature" })
    ));
    assert!(m.apply(ModelCommandRecord::SetMaterial { id: 1, name: " Aluminium ".to_owned() }, &clear()).is_ok());
    assert_eq!(m.features[0].material.as_deref(), Some("Aluminium"));
    assert!(m.apply(ModelCommandRecord::ClearMaterial { id: 1 }, &clear()).is_ok());
    assert!(m.features[0].material.is_none());
    assert!(matches!(
        m.apply(ModelCommandRecord::ClearMaterial { id: 4 }, &clear()),
        Err(DocumentError::PrimitiveMismatch { id: 4, expected: "solid feature" })
    ));
}

#[test]
fn placing_and_reshaping_check_ownership_and_kind() {
    let mut m = model();
    assert!(matches!(
        m.apply(ModelCommandRecord::Place { id: 1 }, &clear()),
        Err(DocumentError::FeatureInAssembly { id: 1, assembly: 7, occurrence: 2 })
    ));
    assert!(matches!(m.apply(ModelCommandRecord::Place { id: 3 }, &clear()), Ok(None)));
    assert!(matches!(m.apply(ModelCommandRecord::Place { id: 8 }, &clear()), Err(DocumentError::FeatureNotFound(8))));
    assert!(matches!(m.apply(ModelCommandRecord::Reshape { id: 1, kind: FeatureKind::Box }, &clear()), Ok(None)));
    assert!(matches!(
        m.apply(ModelCommandRecord::Reshape { id: 1, kind: FeatureKind::Sphere }, &clear()),
        Err(DocumentError::PrimitiveMismatch { id: 1, expected: "sphere" })
    ));
    let bad = CommandFacts {
        definition_fault: Some(DocumentError::InvalidParameter("sphere radius must be positive".to_owned())),
        placement_fault: None,
    };
    assert!(matches!(
        m.apply(ModelCommandRecord::Reshape { id: 1, kind: FeatureKind::Sphere }, &bad),
        Err(DocumentError::InvalidParameter(ref s)) if s == "sphere radius must be positive"
    ));
}

#[test]
fn refused_transactions_take_back_renames_and_materials() {
    let mut m = model();
    let commands = vec![
        ModelCommandRecord::Rename { id: 1, name: "Plate".to_owned() },
        ModelCommandRecord::SetMaterial { id: 2, name: "Steel".to_owned() },
        ModelCommandRecord::SetVisibility { id: 3, visible: false },
        ModelCommandRecord::Place { id: 3 },
        ModelCommandRecord::Rename { id: 77, name: "Lost".to_owned() },
    ];
    assert!(matches!(m.apply_transaction(commands, &Vec::new()), Err(DocumentError::FeatureNotFound(77))));
    assert_eq!(m.features[0].name, "Feature 1");
    assert!(m.features[1].material.is_none());
    assert!(m.features[2].visible);
}

fn region(has_holes: bool) -> SolvedRegionFacts {
    SolvedRegionFacts { definition_fault: None, solve_fault: None, has_holes }
}

#[test]
fn replacing_a_sketch_checks_every_feature_built_from_it_first() {
    let mut m = model();
    m.features.push(FeatureNode {
        id: 5,
        link: FeatureLink::SketchProfile { sketch_id: 4 },
        kind: FeatureKind::Extrusion,
        name: "Pad".to_owned(),
        visible: true,
        material: None,
    });
    m.features.push(FeatureNode {
        id: 6,
        link: FeatureLink::SketchProfile { sketch_id: 4 },
        kind: FeatureKind::Revolve,
        name: "Turn".to_owned(),
        visible: true,
        material: None,
    });
    m.next_id = 7;
    let none: Vec<Option<DocumentError>> = (0..6).map(|_| None).collect();
    assert!(matches!(
        m.replace_sketch_and_sync(4, SketchPlane::WorldYz, &region(true), &none),
        Err(DocumentError::InvalidParameter(ref s)) if s == "a sketch with revolve dependents cannot contain hole loops"
    ));
    assert!(matches!(m.features[3].link, FeatureLink::Sketch { plane: SketchPlane::WorldXy }));
    let mut faults: Vec<Option<DocumentError>> = (0..6).map(|_| None).collect();
    faults[4] = Some(DocumentError::InvalidParameter("extrusion height must be positive".to_owned()));
    assert!(matches!(
        m.replace_sketch_and_sync(4, SketchPlane::WorldYz, &region(false), &faults),
        Err(DocumentError::InvalidParameter(ref s)) if s == "extrusion height must be positive"
    ));
    assert!(matches!(
        m.replace_sketch_and_sync(40, SketchPlane::WorldYz, &region(false), &none),
        Err(DocumentError::FeatureNotFound(40))
    ));
    let unsolved = SolvedRegionFacts {
        definition_fault: None,
        solve_fault: Some(DocumentError::SketchConstraint("sketch is over-constrained".to_owned())),
        has_holes: false,
    };
    assert!(matches!(
        m.replace_sketch_and_sync(4, SketchPlane::WorldYz, &unsolved, &none),
        Err(DocumentError::SketchConstraint(_))
    ));
    assert!(m.replace_sketch_and_sync(4, SketchPlane::WorldYz, &region(false), &none).is_ok());
    assert!(matches!(m.features[3].link, FeatureLink::Sketch { plane: SketchPlane::WorldYz }));
    assert_eq!(m.features[3].name, "Feature 4");
}

fn edge_modifier(fillet: bool, edge_sources: Vec<u64>) -> ModelCommandRecord {
    ModelCommandRecord::CreateEdgeModifier { fillet, name: String::new(), edge_sources }
}

#[test]
fn chamfers_and_fillets_take_one_source_and_hide_it() {
    let mut m = model();
    m.next_id = 5;
    for (sources, text) in [
        (Vec::new(), "edge modifier requires at least one edge"),
        (vec![3, 1], "edge modifier edges must belong to one non-zero source feature"),
        (vec![0, 0], "edge modifier edges must belong to one non-zero source feature"),
    ] {
        assert!(matches!(
            m.apply(edge_modifier(false, sources), &clear()),
            Err(DocumentError::InvalidParameter(ref s)) if s == text
        ));
    }
    assert!(matches!(
        m.apply(edge_modifier(false, vec![4]), &clear()),
        Err(DocumentError::PrimitiveMismatch { id: 4, expected: "solid feature" })
    ));
    assert!(matches!(m.apply(edge_modifier(true, vec![9]), &clear()), Err(DocumentError::FeatureNotFound(9))));
    assert!(matches!(m.apply(edge_modifier(false, vec![3, 3]), &clear()), Ok(Some(5))));
    assert!(!m.features[2].visible);
    let made = m.features.last().unwrap();
    assert_eq!(made.name, "Chamfer");
    assert!(matches!(made.link, FeatureLink::EdgeModifier { source: Some(3) }));
    assert!(matches!(m.apply(edge_modifier(true, vec![5]), &clear()), Ok(Some(6))));
    assert_eq!(m.features.last().unwrap().name, "Fillet");

    let mut n = model();
    n.next_id = 5;
    let commands = vec![edge_modifier(false, vec![3]), ModelCommandRecord::Rename { id: 77, name: String::new() }];
    assert!(matches!(n.apply_transaction(commands, &Vec::new()), Err(DocumentError::FeatureNotFound(77))));
    assert!(n.features[2].visible);
    assert_eq!(n.features.len(), 4);
    assert_eq!(n.next_id, 5);
}
