use cadx_core::feature::{
    normalized_name, validate_step_boundaries, BooleanOperation, DocumentError, FeatureKind, FeatureLink,
    FeatureNode, SketchPlane, StepShellBoundary,
};
use cadx_core::graph::FeatureGraph;

fn kind_of(link: &FeatureLink) -> FeatureKind {
    match link {
        FeatureLink::Standalone => FeatureKind::Box,
        FeatureLink::SketchProfile { .. } => FeatureKind::Extrusion,
        FeatureLink::Loft { .. } => FeatureKind::Loft,
        FeatureLink::Boolean { operation, .. } => FeatureKind::Boolean(*operation),
        FeatureLink::EdgeModifier { .. } => FeatureKind::Chamfer,
        FeatureLink::DatumPlane { .. } => FeatureKind::DatumPlane,
        FeatureLink::DatumPoint { .. } => FeatureKind::DatumPoint,
        FeatureLink::Sketch { .. } => FeatureKind::Sketch,
    }
}

fn node(id: u64, link: FeatureLink) -> FeatureNode {
    FeatureNode { id, kind: kind_of(&link), link, name: format!("Feature {id}"), visible: true, material: None }
}

fn union(left: u64, right: u64) -> FeatureLink {
    FeatureLink::Boolean { operation: BooleanOperation::Union, left, right }
}

#[test]
fn feature_graph_orders_dependencies_and_reports_impact() {
    let nodes = vec![
        node(1, FeatureLink::Standalone),
        node(2, FeatureLink::Standalone),
        node(3, union(1, 2)),
    ];
    let graph = FeatureGraph::build(&nodes).ok().unwrap();
    assert_eq!(graph.order(), &[1, 2, 3]);
    assert_eq!(graph.dependencies(3), Some(&[1, 2][..]));
    assert_eq!(graph.dependents(1), &[3]);
    assert_eq!(graph.transitive_dependents(1), vec![3]);
}

#[test]
fn feature_graph_reports_cycles_in_list_order() {
    let nodes = vec![node(1, union(2, 1)), node(2, union(1, 2))];
    match FeatureGraph::build(&nodes) {
        Err(DocumentError::DependencyCycle { cycle }) => assert_eq!(cycle, vec![1, 2]),
        _ => panic!("expected a dependency cycle"),
    }
}

#[test]
fn feature_graph_rejects_a_repeated_id() {
    let nodes = vec![
        node(4, FeatureLink::Standalone),
        node(7, FeatureLink::Standalone),
        node(4, FeatureLink::Standalone),
    ];
    assert!(matches!(FeatureGraph::build(&nodes), Err(DocumentError::InvalidFeatureId(4))));
}

#[test]
fn feature_graph_rejects_boolean_sketch_operands() {
    let nodes = vec![
        node(1, FeatureLink::Sketch { plane: SketchPlane::WorldXy }),
        node(2, FeatureLink::Standalone),
        node(3, FeatureLink::Boolean { operation: BooleanOperation::Intersect, left: 1, right: 2 }),
    ];
    match FeatureGraph::build(&nodes) {
        Err(DocumentError::InvalidDependency { feature, dependency, expected }) => {
            assert_eq!((feature, dependency, expected), (3, 1, "solid feature"));
        }
        _ => panic!("expected an invalid dependency"),
    }
}

#[test]
fn feature_graph_rejects_missing_and_mistyped_sources() {
    let missing = vec![node(1, union(1, 9))];
    match FeatureGraph::build(&missing) {
        Err(DocumentError::InvalidDependency { feature, dependency, expected }) => {
            assert_eq!((feature, dependency, expected), (1, 9, "solid feature"));
        }
        _ => panic!("expected a missing dependency"),
    }
    let loft = vec![
        node(1, FeatureLink::Sketch { plane: SketchPlane::WorldXy }),
        node(2, FeatureLink::Standalone),
        node(3, FeatureLink::Loft { sketch_ids: vec![1, 2] }),
    ];
    match FeatureGraph::build(&loft) {
        Err(DocumentError::InvalidDependency { feature, dependency, expected }) => {
            assert_eq!((feature, dependency, expected), (3, 2, "sketch"));
        }
        _ => panic!("expected a non-sketch loft section"),
    }
    let datum = vec![
        node(1, FeatureLink::Standalone),
        node(2, FeatureLink::Sketch { plane: SketchPlane::DatumPlane { datum_id: 1 } }),
    ];
    match FeatureGraph::build(&datum) {
        Err(DocumentError::InvalidDependency { feature, dependency, expected }) => {
            assert_eq!((feature, dependency, expected), (2, 1, "datum plane"));
        }
        _ => panic!("expected a non-datum attachment"),
    }
}

#[test]
fn feature_graph_places_the_earliest_ready_feature_first() {
    let nodes = vec![
        node(1, FeatureLink::SketchProfile { sketch_id: 3 }),
        node(2, FeatureLink::Standalone),
        node(3, FeatureLink::Sketch { plane: SketchPlane::WorldXy }),
    ];
    let graph = FeatureGraph::build(&nodes).ok().unwrap();
    assert_eq!(graph.order(), &[2, 3, 1]);
}

#[test]
fn independent_features_keep_list_order() {
    let nodes = vec![
        node(5, FeatureLink::Standalone),
        node(3, FeatureLink::Standalone),
        node(9, FeatureLink::Standalone),
    ];
    let graph = FeatureGraph::build(&nodes).ok().unwrap();
    assert_eq!(graph.order(), &[5, 3, 9]);
    assert_eq!(graph.dependencies(3), Some(&[][..]));
    assert_eq!(graph.dependencies(4), None);
    assert_eq!(graph.dependents(4), &[] as &[u64]);
}

#[test]
fn transitive_dependents_follow_datum_and_sketch_chains() {
    let nodes = vec![
        node(1, FeatureLink::Standalone),
        node(2, FeatureLink::DatumPlane { face_feature: 1 }),
        node(3, FeatureLink::Sketch { plane: SketchPlane::DatumPlane { datum_id: 2 } }),
        node(4, FeatureLink::SketchProfile { sketch_id: 3 }),
        node(5, FeatureLink::Standalone),
    ];
    let graph = FeatureGraph::build(&nodes).ok().unwrap();
    assert_eq!(graph.order(), &[1, 2, 3, 4, 5]);
    assert_eq!(graph.transitive_dependents(1), vec![2, 3, 4]);
    assert_eq!(graph.transitive_dependents(3), vec![4]);
    assert!(graph.depends_on(4, 1));
    assert!(!graph.depends_on(1, 4));
    assert!(!graph.depends_on(5, 1));
    assert!(!graph.depends_on(8, 1));
}

#[test]
fn dependents_are_listed_once_per_use() {
    let nodes = vec![node(1, FeatureLink::Standalone), node(2, union(1, 1))];
    let graph = FeatureGraph::build(&nodes).ok().unwrap();
    assert_eq!(graph.dependents(1), &[2, 2]);
    assert_eq!(graph.dependencies(2), Some(&[1, 1][..]));
}

#[test]
fn boolean_operation_labels() {
    assert_eq!(BooleanOperation::Union.label(), "Union");
    assert_eq!(BooleanOperation::Subtract.label(), "Subtract");
    assert_eq!(BooleanOperation::Intersect.label(), "Intersect");
}

#[test]
fn sketch_plane_attachments() {
    assert_eq!(SketchPlane::WorldXz.dependency_id(), None);
    assert_eq!(SketchPlane::DatumPlane { datum_id: 6 }.dependency_id(), Some(6));
    assert_eq!(SketchPlane::PlanarFace { feature_id: 2 }.dependency_id(), Some(2));
    assert!(SketchPlane::WorldYz.is_valid());
    assert!(!SketchPlane::DatumPlane { datum_id: 0 }.is_valid());
    assert!(!SketchPlane::PlanarFace { feature_id: 0 }.is_valid());
    assert!(SketchPlane::PlanarFace { feature_id: 3 }.is_valid());
}

#[test]
fn names_are_trimmed_bounded_and_defaulted() {
    assert_eq!(normalized_name("  bracket  ", "Box"), "bracket");
    assert_eq!(normalized_name(" \t ", "Box"), "Box");
    let long = "é".repeat(100);
    assert_eq!(normalized_name(&long, "Box"), "é".repeat(80));
}

#[test]
fn imported_step_boundary_ids_are_validated() {
    let shell = |shell_id, orientation| StepShellBoundary { shell_id, orientation };
    for voids in [vec![shell(0, true)], vec![shell(1, false)], vec![shell(2, true), shell(2, false)]] {
        assert!(matches!(
            validate_step_boundaries(1, &voids),
            Err(DocumentError::InvalidParameter(ref m)) if m == "imported STEP boundary shell ids must be non-zero and unique"
        ));
    }
    assert!(validate_step_boundaries(1, &[shell(2, true), shell(3, false)]).is_ok());
    let many = vec![shell(2, true); 4097];
    assert!(matches!(
        validate_step_boundaries(1, &many),
        Err(DocumentError::InvalidParameter(ref m)) if m == "imported STEP solid exceeds the limit of 4096 void shells"
    ));
}
