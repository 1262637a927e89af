use cadx_core::constraint::{validate_distinct_points, ConstraintError, PointAnchor, SketchPoint, SketchSegment};
use cadx_core::diagnostics::{BooleanFailureStage, EdgeModifierOperation};
use cadx_core::command::{require_unlocked_layer, validate_layer, CadDocument};
use cadx_core::document::{
    validate_layer_table, Layer,
    default_next_constraint_id, default_next_entity_id, default_next_layer_id,
    default_next_parameter_id, distinct_domains, next_id_after, validate_next_id, CommandError,
    DocumentDiff, DocumentSummary, Domain, Units,
};
use cadx_core::expression::{ExpressionError, ParameterExpression};
use cadx_core::kernel::{CadKernelCapabilities, EdgeCountSupport, EdgeModifierCapability, SharedVertexSupport};
use cadx_core::object::{ObjectId, ObjectVersionIndex};
use cadx_core::pack::{core_validator_id, PackLock};
use cadx_core::prepared::{ActionIdempotencyKey, ActionSource, PrepareError};
use sha2::{Digest, Sha256};

#[test]
fn expressions_are_trimmed_and_list_their_parameters_once() {
    let expression = ParameterExpression::new("  width * 2 + height - width ").ok().unwrap();
    assert_eq!(expression.source(), "width * 2 + height - width");
    assert_eq!(expression.dependencies().ok().unwrap(), vec!["height".to_owned(), "width".to_owned()]);
    assert!(matches!(ParameterExpression::new("   "), Err(ExpressionError::Empty)));
    assert!(matches!(ParameterExpression::new("1 +"), Err(ExpressionError::UnexpectedEnd)));
    let long = "1+".repeat(2049) + "1";
    assert!(matches!(ParameterExpression::new(&long), Err(ExpressionError::TooLong { limit: 4096 })));
}

#[test]
fn object_index_records_the_latest_revision() {
    let mut index = ObjectVersionIndex::new();
    let layer = ObjectId::Layer(1);
    let unseen = index.precondition(layer);
    assert!(!unseen.exists);
    assert_eq!(unseen.last_modified_revision, None);
    index.mark(layer, true, 3);
    index.mark(ObjectId::Entity(1), true, 4);
    index.mark(layer, false, 5);
    let state = index.precondition(layer);
    assert_eq!(state.object, layer);
    assert!(!state.exists);
    assert_eq!(state.last_modified_revision, Some(5));
    assert_eq!(index.precondition(ObjectId::Entity(1)).last_modified_revision, Some(4));
}

#[test]
fn constraints_need_two_distinct_points() {
    let a = SketchPoint::new(1, PointAnchor::Start);
    let b = SketchPoint::new(1, PointAnchor::End);
    assert!(validate_distinct_points(a, b).is_ok());
    assert!(matches!(
        validate_distinct_points(a, a),
        Err(ConstraintError::InvalidConstraint(ref m)) if m == "a constraint must reference two distinct sketch points"
    ));
    let segment = SketchSegment::new(a, b);
    assert_eq!(segment.start, a);
    assert_eq!(segment.end, b);
}

#[test]
fn diagnostic_codes_are_snake_case() {
    assert_eq!(BooleanFailureStage::TopologyHealing.code(), "topology_healing");
    assert_eq!(EdgeModifierOperation::Fillet.code(), "fillet");
}

#[test]
fn ids_are_allocated_after_the_largest() {
    assert_eq!(next_id_after("entity", &[]).ok(), Some(1));
    assert_eq!(next_id_after("entity", &[4, 9, 2]).ok(), Some(10));
    assert!(matches!(
        next_id_after("layer", &[1, u64::MAX]),
        Err(CommandError::InvalidDocument(ref m)) if m == "layer id space is exhausted"
    ));
    assert!(validate_next_id("entity", 10, &[4, 9]).is_ok());
    assert!(matches!(
        validate_next_id("entity", 9, &[4, 9]),
        Err(CommandError::InvalidDocument(ref m)) if m == "next entity id 9 is behind existing ids"
    ));
    assert_eq!(default_next_layer_id(), 2);
    assert_eq!(default_next_entity_id(), 1);
    assert_eq!(default_next_parameter_id(), 1);
    assert_eq!(default_next_constraint_id(), 1);
    assert_eq!(Units::default(), Units::Millimeters);
}

#[test]
fn diffs_count_model_changes() {
    let mut diff = DocumentDiff::empty();
    assert!(diff.is_empty());
    assert_eq!(diff.summary(), "0 model changes");
    diff.created_entities = vec![1, 2];
    diff.deleted_layers = vec![3];
    diff.updated_constraints = vec![4];
    assert!(!diff.is_empty());
    assert_eq!(diff.summary(), "4 model changes");
}

#[test]
fn summaries_list_each_domain_once_in_domain_order() {
    assert_eq!(
        distinct_domains(&[Domain::Architecture, Domain::Drafting, Domain::Architecture]),
        vec![Domain::Drafting, Domain::Architecture]
    );
    let summary = DocumentSummary::of("Plan", &[Domain::Mechanical, Domain::Drafting], 1);
    assert_eq!(summary.title, "Plan");
    assert_eq!(summary.entity_count, 2);
    assert_eq!(summary.layer_count, 1);
    assert_eq!(summary.domains, vec![Domain::Drafting, Domain::Mechanical]);
}

#[test]
fn kernel_capabilities_default_closed() {
    let default = CadKernelCapabilities::default();
    assert_eq!(default.chamfer.edge_count, EdgeCountSupport::Unsupported);
    assert_eq!(default.fillet.edge_count, EdgeCountSupport::Unsupported);
    assert!(!default.interference_analysis);
    let capabilities = CadKernelCapabilities {
        chamfer: EdgeModifierCapability {
            edge_count: EdgeCountSupport::Multiple,
            shared_vertex_support: SharedVertexSupport::ConvexPolyhedralSource,
            ..EdgeModifierCapability::default()
        },
        ..CadKernelCapabilities::default()
    };
    assert_eq!(
        capabilities.edge_modifier(EdgeModifierOperation::Chamfer).shared_vertex_support,
        SharedVertexSupport::ConvexPolyhedralSource
    );
    assert_eq!(
        capabilities.edge_modifier(EdgeModifierOperation::Fillet).shared_vertex_support,
        SharedVertexSupport::Unsupported
    );
}

#[test]
fn the_current_pack_lock_is_valid_and_holds_the_compatibility_packs() {
    let lock = PackLock::current();
    assert!(lock.validate().is_ok());
    assert!(lock == PackLock::current());
    assert!(!lock.packs.is_empty() && lock.packs.len() <= 32);
    assert!(lock.packs.windows(2).all(|w| w[0].id < w[1].id));
    for pack in &lock.packs {
        assert_eq!(pack.abi_version, 1);
        assert_ne!(pack.schema_version, 0);
        assert!(!pack.operations.is_empty() && pack.operations.len() <= 256);
        assert!(pack.operations.windows(2).all(|w| w[0].id < w[1].id));
        assert!(pack.artifact_hash.iter().any(|b| *b != 0));
    }
    assert!(lock.dependencies.iter().all(|d| d.schema_version != 0 && d.content_hash.iter().any(|b| *b != 0)));
    assert!(lock.packs.iter().any(|pack| {
        pack.id == "cadx.pack.mechanical.compat"
            && pack.operations.iter().any(|operation| operation.id.ends_with("create_constraint"))
    }));
    assert_eq!(core_validator_id(), "cadx.validator.core");
}

#[test]
fn pack_lock_hash_is_sha256_over_the_domain_and_encoding() {
    let encoding = br#"{"lock_version":1}"#;
    let mut hasher = Sha256::new();
    hasher.update(b"CADX-PACK-LOCK\0canonical-json-v1\0");
    hasher.update(encoding);
    let expected: [u8; 32] = hasher.finalize().into();
    assert_eq!(PackLock::hash(encoding), expected);
    let hex = PackLock::hash_hex(encoding);
    assert_eq!(hex.len(), 64);
    let expected_hex: String = expected.iter().map(|b| format!("{b:02x}")).collect();
    assert_eq!(hex, expected_hex);
    assert_ne!(PackLock::hash(encoding), PackLock::hash(b"{}"));
}

#[test]
fn idempotency_keys_digest_the_documented_preimage() {
    let source = ActionSource::for_run(7, 8, 9);
    let key = ActionIdempotencyKey::derive([1; 32], [2; 32], [3; 32], Some(source), b"[]").ok().unwrap();
    let mut preimage = b"CADX-ACTION-IDEMPOTENCY\0v3-run-and-pack-bound\0".to_vec();
    preimage.extend_from_slice(&[1; 32]);
    preimage.extend_from_slice(&[2; 32]);
    preimage.extend_from_slice(&[3; 32]);
    preimage.push(1);
    preimage.extend_from_slice(&7u64.to_le_bytes());
    preimage.extend_from_slice(&8u64.to_le_bytes());
    preimage.extend_from_slice(&9u64.to_le_bytes());
    preimage.extend_from_slice(b"[]");
    let expected: [u8; 32] = Sha256::digest(&preimage).into();
    assert_eq!(key.to_bytes(), expected);
    assert_eq!(key.to_hex().len(), 64);

    let legacy = ActionIdempotencyKey::derive([1; 32], [2; 32], [3; 32], Some(ActionSource::legacy_task(7)), b"[]")
        .ok()
        .unwrap();
    let mut legacy_preimage = b"CADX-ACTION-IDEMPOTENCY\0v3-pack-bound\0".to_vec();
    legacy_preimage.extend_from_slice(&[1; 32]);
    legacy_preimage.extend_from_slice(&[2; 32]);
    legacy_preimage.extend_from_slice(&[3; 32]);
    legacy_preimage.push(1);
    legacy_preimage.extend_from_slice(&7u64.to_le_bytes());
    legacy_preimage.extend_from_slice(b"[]");
    let legacy_expected: [u8; 32] = Sha256::digest(&legacy_preimage).into();
    assert_eq!(legacy.to_bytes(), legacy_expected);
}

#[test]
fn prepare_errors_wrap_command_errors() {
    let error: PrepareError = CommandError::LayerMissing(3).into();
    assert!(matches!(error, PrepareError::Command(CommandError::LayerMissing(3))));
}

#[test]
fn formulas_list_their_parameters_in_order() {
    let expression = ParameterExpression::new("(base + 5) * scale - offset / 2").ok().unwrap();
    assert_eq!(
        expression.dependencies().ok().unwrap(),
        vec!["base".to_owned(), "offset".to_owned(), "scale".to_owned()]
    );
}

#[test]
fn malformed_formulas_are_refused() {
    assert!(matches!(
        ParameterExpression::new("unknown@value"),
        Err(ExpressionError::InvalidCharacter { .. })
    ));
    assert!(matches!(ParameterExpression::new("(1 + 2"), Err(ExpressionError::UnexpectedEnd)));
    assert!(ParameterExpression::new("10 / (2 - 2)").is_ok());
}

#[test]
fn layer_names_are_unique_up_to_ascii_case() {
    let layer = |id, name: &str, locked| Layer { id, name: name.to_owned(), visible: true, locked, color: [0, 0, 0, 255] };
    let mut document = CadDocument::new("Test");
    document.layers.insert(2, layer(2, " Walls ", true));
    let layers = &document.layers;
    assert!(validate_layer(&layer(3, "Roof", false), layers, None).is_ok());
    assert!(matches!(
        validate_layer(&layer(3, "  walls", false), layers, None),
        Err(CommandError::InvalidLayer(ref m)) if m == "layer name   walls is not unique"
    ));
    assert!(validate_layer(&layer(2, "WALLS", false), layers, Some(2)).is_ok());
    assert!(matches!(
        validate_layer(&layer(u64::MAX, "Roof", false), layers, None),
        Err(CommandError::InvalidLayer(ref m)) if m == "layer id and name must be valid"
    ));
    assert!(require_unlocked_layer(&document, 1).is_ok());
    assert!(matches!(require_unlocked_layer(&document, 2), Err(CommandError::LayerLocked(2))));
    assert!(matches!(require_unlocked_layer(&document, 5), Err(CommandError::LayerMissing(5))));

    let table = vec![(1u64, layer(1, "Concept", false)), (2u64, layer(2, "CONCEPT", false))];
    assert!(matches!(
        validate_layer_table(5, &table),
        Err(CommandError::InvalidLayer(ref m)) if m == "layer name CONCEPT is not unique"
    ));
    assert!(matches!(validate_layer_table(4, &table), Err(CommandError::UnsupportedSchemaVersion(4))));
    assert!(matches!(
        validate_layer_table(5, &[(3u64, layer(1, "Concept", false))]),
        Err(CommandError::InvalidDocument(ref m)) if m == "layer map key 3 does not match layer id 1"
    ));
    assert!(matches!(
        validate_layer_table(5, &[]),
        Err(CommandError::InvalidDocument(ref m)) if m == "a document must contain at least one layer"
    ));
    assert!(validate_layer_table(5, &[(1u64, layer(1, "Concept", false))]).is_ok());
}
