use cadx_core::assembly::{
    validate_name, AssemblyError, AssemblyFeatureInstance, AssemblyRecord, ComponentDefinition,
    ComponentKind, MateRecord, OccurrenceRecord, StepEntityRef,
};

fn definition(id: u64, name: &str, kind: ComponentKind) -> ComponentDefinition {
    ComponentDefinition { id, name: name.to_owned(), kind, source: None }
}

fn occurrence(id: u64, definition_id: u64, parent_id: Option<u64>) -> OccurrenceRecord {
    OccurrenceRecord {
        id,
        name: format!("occurrence {id}"),
        definition_id,
        parent_id,
        suppressed: false,
        feature_ids: Vec::new(),
        source: None,
        transform_fault: None,
    }
}

fn mate(id: u64, parent: u64, child: u64) -> MateRecord {
    MateRecord {
        id,
        name: format!("mate {id}"),
        parent_occurrence_id: parent,
        child_occurrence_id: child,
        geometry_fault: None,
        pose_matches: true,
    }
}

fn robot() -> AssemblyRecord {
    AssemblyRecord {
        id: 1,
        name: "robot".to_owned(),
        definitions: vec![
            definition(1, "base", ComponentKind::Assembly),
            definition(2, "arm", ComponentKind::Assembly),
            definition(3, "tool", ComponentKind::Part),
        ],
        occurrences: vec![occurrence(1, 1, None), occurrence(2, 2, Some(1)), occurrence(3, 3, Some(2))],
        mates: vec![mate(1, 1, 2), mate(2, 2, 3)],
    }
}

#[test]
fn a_consistent_assembly_validates() {
    assert_eq!(robot().validate(&[]), Ok(()));
}

#[test]
fn mate_identity_hierarchy_and_drivers_are_checked() {
    let mut duplicate_id = robot();
    duplicate_id.mates[1].id = 1;
    assert_eq!(duplicate_id.validate(&[]), Err(AssemblyError::InvalidMateId(1)));

    let mut root_driver = robot();
    root_driver.mates[0].child_occurrence_id = 1;
    root_driver.mates[0].parent_occurrence_id = 2;
    assert_eq!(
        root_driver.validate(&[]),
        Err(AssemblyError::MateDrivesRoot { mate: 1, occurrence: 1 })
    );

    let mut wrong_parent = robot();
    wrong_parent.mates[1].parent_occurrence_id = 1;
    assert_eq!(
        wrong_parent.validate(&[]),
        Err(AssemblyError::MateParentMismatch { mate: 2, child: 3, expected: 2, actual: 1 })
    );

    let mut duplicate_driver = robot();
    duplicate_driver.mates.push(mate(3, 1, 2));
    assert_eq!(
        duplicate_driver.validate(&[]),
        Err(AssemblyError::OccurrenceDrivenMultipleTimes { occurrence: 2, first: 1, second: 3 })
    );

    let mut bad_axis = robot();
    bad_axis.mates[0].geometry_fault = Some(AssemblyError::InvalidMateAxis { mate: 1 });
    assert_eq!(bad_axis.validate(&[]), Err(AssemblyError::InvalidMateAxis { mate: 1 }));

    let mut mismatched_pose = robot();
    mismatched_pose.mates[0].pose_matches = false;
    assert_eq!(
        mismatched_pose.validate(&[]),
        Err(AssemblyError::MateTransformMismatch { mate: 1, occurrence: 2 })
    );

    let mut missing = robot();
    missing.mates[1].child_occurrence_id = 8;
    assert_eq!(
        missing.validate(&[]),
        Err(AssemblyError::MateOccurrenceNotFound { mate: 2, occurrence: 8 })
    );
}

#[test]
fn hierarchy_faults_are_reported() {
    let mut part_parent = robot();
    part_parent.definitions[1].kind = ComponentKind::Part;
    assert_eq!(
        part_parent.validate(&[]),
        Err(AssemblyError::PartCannotContainOccurrence { parent: 2, child: 3 })
    );

    let mut missing_parent = robot();
    missing_parent.occurrences[2].parent_id = Some(9);
    assert_eq!(
        missing_parent.validate(&[]),
        Err(AssemblyError::MissingParent { occurrence: 3, parent: 9 })
    );

    let mut cyclic = robot();
    cyclic.occurrences[0].parent_id = Some(2);
    cyclic.occurrences.push(occurrence(4, 3, None));
    assert_eq!(cyclic.validate(&[]), Err(AssemblyError::OccurrenceCycle { occurrence: 1 }));

    let mut rootless = robot();
    rootless.occurrences[0].parent_id = Some(2);
    assert_eq!(rootless.validate(&[]), Err(AssemblyError::MissingRootOccurrence));

    let mut unused = robot();
    unused.definitions.push(definition(4, "spare", ComponentKind::Part));
    assert_eq!(unused.validate(&[]), Err(AssemblyError::UnusedDefinition(4)));

    let mut missing_definition = robot();
    missing_definition.occurrences[1].definition_id = 5;
    assert_eq!(
        missing_definition.validate(&[]),
        Err(AssemblyError::MissingDefinition { occurrence: 2, definition: 5 })
    );
}

#[test]
fn feature_bodies_are_owned_once() {
    let mut shared = robot();
    shared.occurrences[0].feature_ids = vec![10];
    shared.occurrences[1].feature_ids = vec![10];
    assert_eq!(
        shared.validate(&[10]),
        Err(AssemblyError::FeatureOwnedMultipleTimes { feature: 10, first: 1, second: 2 })
    );

    let mut missing = robot();
    missing.occurrences[0].feature_ids = vec![11];
    assert_eq!(
        missing.validate(&[10]),
        Err(AssemblyError::MissingFeature { occurrence: 1, feature: 11 })
    );

    let mut repeated = robot();
    repeated.occurrences[0].feature_ids = vec![10, 10];
    assert_eq!(
        repeated.validate(&[10]),
        Err(AssemblyError::InvalidOccurrenceFeature { occurrence: 1, feature: 10 })
    );

    let mut owned = robot();
    owned.occurrences[0].feature_ids = vec![10];
    owned.occurrences[2].feature_ids = vec![12];
    assert_eq!(owned.validate(&[10, 12]), Ok(()));
}

#[test]
fn ids_names_and_sources_are_checked_first() {
    let mut zero = robot();
    zero.id = 0;
    assert_eq!(zero.validate(&[]), Err(AssemblyError::InvalidAssemblyId(0)));

    let mut blank = robot();
    blank.name = "   ".to_owned();
    assert_eq!(blank.validate(&[]), Err(AssemblyError::InvalidName));

    let mut duplicate_definition = robot();
    duplicate_definition.definitions[2].id = 1;
    assert_eq!(duplicate_definition.validate(&[]), Err(AssemblyError::InvalidDefinitionId(1)));

    let mut bad_source = robot();
    bad_source.definitions[0].source = Some(StepEntityRef { data_section: 0, entity_id: 0 });
    assert_eq!(bad_source.validate(&[]), Err(AssemblyError::InvalidSourceEntity));

    let mut transform = robot();
    transform.occurrences[1].transform_fault = Some(AssemblyError::NonRigidTransform);
    assert_eq!(transform.validate(&[]), Err(AssemblyError::NonRigidTransform));

    let mut empty = robot();
    empty.definitions.clear();
    assert_eq!(empty.validate(&[]), Err(AssemblyError::InvalidDefinitionCount(0)));
}

#[test]
fn names_hold_one_to_one_hundred_sixty_characters() {
    assert_eq!(validate_name(&"n".repeat(160)), Ok(()));
    assert_eq!(validate_name(&format!("  {}  ", "n".repeat(160))), Ok(()));
    assert_eq!(validate_name(&"n".repeat(161)), Err(AssemblyError::InvalidName));
    assert_eq!(validate_name(" "), Err(AssemblyError::InvalidName));
}

#[test]
fn source_entities_and_definition_bodies() {
    assert_eq!(StepEntityRef { data_section: 2, entity_id: 0 }.validate(), Err(AssemblyError::InvalidSourceEntity));
    assert_eq!(StepEntityRef { data_section: 2, entity_id: 5 }.validate(), Ok(()));
    let instance = AssemblyFeatureInstance { assembly_id: 3, definition_id: 4, occurrence_id: 9, body_slot: 1 };
    let body = instance.definition_body();
    assert_eq!((body.assembly_id, body.definition_id, body.body_slot), (3, 4, 1));
}

#[test]
fn suppression_is_inherited_down_the_hierarchy() {
    let mut assembly = robot();
    assembly.occurrences[1].suppressed = true;
    assert_eq!(assembly.effective_suppression(), Ok(vec![(1, false), (2, true), (3, true)]));
    let mut root = robot();
    root.occurrences[0].suppressed = true;
    let resolved = root.effective_suppression().unwrap();
    assert!(resolved.iter().all(|(_, value)| *value));
    let mut reversed = robot();
    reversed.occurrences.reverse();
    assert_eq!(reversed.effective_suppression(), Ok(vec![(1, false), (2, false), (3, false)]));
}

#[test]
fn unresolvable_hierarchies_are_reported() {
    let mut cyclic = robot();
    cyclic.occurrences[0].parent_id = Some(3);
    assert_eq!(cyclic.effective_suppression(), Err(AssemblyError::UnresolvableOccurrenceHierarchy));
    let mut orphan = robot();
    orphan.occurrences[2].parent_id = Some(9);
    assert_eq!(orphan.effective_suppression(), Err(AssemblyError::UnresolvableOccurrenceHierarchy));
}

#[test]
fn lookups_find_the_first_matching_entry() {
    let r = robot();
    assert_eq!(r.occurrence(2).map(|o| o.definition_id), Some(2));
    assert!(r.occurrence(9).is_none());
    assert_eq!(r.definition(3).map(|d| d.name.as_str()), Some("tool"));
    assert!(r.definition(4).is_none());
    assert_eq!(r.mate(2).map(|m| m.child_occurrence_id), Some(3));
    assert!(r.mate(5).is_none());
    assert_eq!(r.mate_for_child(2).map(|m| m.id), Some(1));
    assert!(r.mate_for_child(1).is_none());
    let roots: Vec<u64> = r.roots().iter().map(|o| o.id).collect();
    assert_eq!(roots, vec![1]);
    let mut wide = robot();
    wide.occurrences.push(occurrence(4, 3, Some(2)));
    wide.occurrences.push(occurrence(5, 1, None));
    let children: Vec<u64> = wide.children(2).iter().map(|o| o.id).collect();
    assert_eq!(children, vec![3, 4]);
    let roots: Vec<u64> = wide.roots().iter().map(|o| o.id).collect();
    assert_eq!(roots, vec![1, 5]);
    assert!(wide.children(3).is_empty());
}

#[test]
fn assembly_mate_validation_rejects_invalid_axes_limits_and_duplicate_drivers() {
    let mut invalid_axis = robot();
    invalid_axis.mates[0].geometry_fault = Some(AssemblyError::InvalidMateAxis { mate: 1 });
    assert!(matches!(
        invalid_axis.validate(&[]),
        Err(AssemblyError::InvalidMateAxis { mate: 1 })
    ));

    let mut outside_limits = robot();
    outside_limits.mates[1].geometry_fault = Some(AssemblyError::MateStateOutsideLimits { mate: 2 });
    assert!(matches!(
        outside_limits.validate(&[]),
        Err(AssemblyError::MateStateOutsideLimits { mate: 2 })
    ));

    let mut duplicate_driver = robot();
    let mut duplicate = mate(1, 1, 2);
    duplicate.id = 3;
    duplicate_driver.mates.push(duplicate);
    assert!(matches!(
        duplicate_driver.validate(&[]),
        Err(AssemblyError::OccurrenceDrivenMultipleTimes { occurrence: 2, first: 1, second: 3 })
    ));
}

#[test]
fn assembly_mate_validation_rejects_invalid_identity_hierarchy_frames_and_state() {
    let mut duplicate_id = robot();
    duplicate_id.mates[1].id = 1;
    assert!(matches!(duplicate_id.validate(&[]), Err(AssemblyError::InvalidMateId(1))));

    let mut root_driver = robot();
    root_driver.mates[0].child_occurrence_id = 1;
    root_driver.mates[0].parent_occurrence_id = 2;
    assert!(matches!(
        root_driver.validate(&[]),
        Err(AssemblyError::MateDrivesRoot { mate: 1, occurrence: 1 })
    ));

    let mut wrong_parent = robot();
    wrong_parent.mates[1].parent_occurrence_id = 1;
    assert!(matches!(
        wrong_parent.validate(&[]),
        Err(AssemblyError::MateParentMismatch { mate: 2, child: 3, expected: 2, actual: 1 })
    ));

    let mut invalid_frame = robot();
    invalid_frame.mates[0].geometry_fault = Some(AssemblyError::NonRigidTransform);
    assert!(matches!(invalid_frame.validate(&[]), Err(AssemblyError::NonRigidTransform)));

    let mut non_finite_state = robot();
    non_finite_state.mates[0].geometry_fault = Some(AssemblyError::NonFiniteMateState { mate: 1 });
    assert!(matches!(
        non_finite_state.validate(&[]),
        Err(AssemblyError::NonFiniteMateState { mate: 1 })
    ));

    let mut mismatched_pose = robot();
    mismatched_pose.mates[0].pose_matches = false;
    assert!(matches!(
        mismatched_pose.validate(&[]),
        Err(AssemblyError::MateTransformMismatch { mate: 1, occurrence: 2 })
    ));
}

#[test]
fn validate_mate_validation_rejects_invalid_axes_limits_and_duplicate_drivers() {
    let mut invalid_axis = robot();
    invalid_axis.mates[0].geometry_fault = Some(AssemblyError::InvalidMateAxis { mate: 1 });
    assert!(matches!(
        invalid_axis.validate(&[]),
        Err(AssemblyError::InvalidMateAxis { mate: 1 })
    ));

    let mut outside_limits = robot();
    outside_limits.mates[1].geometry_fault = Some(AssemblyError::MateStateOutsideLimits { mate: 2 });
    assert!(matches!(
        outside_limits.validate(&[]),
        Err(AssemblyError::MateStateOutsideLimits { mate: 2 })
    ));

    let mut duplicate_driver = robot();
    let mut duplicate = mate(1, 1, 2);
    duplicate.id = 3;
    duplicate_driver.mates.push(duplicate);
    assert!(matches!(
        duplicate_driver.validate(&[]),
        Err(AssemblyError::OccurrenceDrivenMultipleTimes { occurrence: 2, first: 1, second: 3 })
    ));
}

#[test]
fn validate_mate_validation_rejects_invalid_identity_hierarchy_frames_and_state() {
    let mut duplicate_id = robot();
    duplicate_id.mates[1].id = 1;
    assert!(matches!(duplicate_id.validate(&[]), Err(AssemblyError::InvalidMateId(1))));

    let mut root_driver = robot();
    root_driver.mates[0].child_occurrence_id = 1;
    root_driver.mates[0].parent_occurrence_id = 2;
    assert!(matches!(
        root_driver.validate(&[]),
        Err(AssemblyError::MateDrivesRoot { mate: 1, occurrence: 1 })
    ));

    let mut wrong_parent = robot();
    wrong_parent.mates[1].parent_occurrence_id = 1;
    assert!(matches!(
        wrong_parent.validate(&[]),
        Err(AssemblyError::MateParentMismatch { mate: 2, child: 3, expected: 2, actual: 1 })
    ));

    let mut invalid_frame = robot();
    invalid_frame.mates[0].geometry_fault = Some(AssemblyError::NonRigidTransform);
    assert!(matches!(invalid_frame.validate(&[]), Err(AssemblyError::NonRigidTransform)));

    let mut non_finite_state = robot();
    non_finite_state.mates[0].geometry_fault = Some(AssemblyError::NonFiniteMateState { mate: 1 });
    assert!(matches!(
        non_finite_state.validate(&[]),
        Err(AssemblyError::NonFiniteMateState { mate: 1 })
    ));

    let mut mismatched_pose = robot();
    mismatched_pose.mates[0].pose_matches = false;
    assert!(matches!(
        mismatched_pose.validate(&[]),
        Err(AssemblyError::MateTransformMismatch { mate: 1, occurrence: 2 })
    ));
}
