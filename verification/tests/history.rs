use cadx_core::document::Layer;
use cadx_core::history::{
    compare_maps, default_next_commit_id, default_snapshot_interval, CommitGraph, HistoryComparison,
    HistoryError,
};

fn empty_comparison() -> HistoryComparison {
    HistoryComparison {
        base_commit: 0,
        target_commit: 1,
        added_entities: Vec::new(),
        removed_entities: Vec::new(),
        modified_entities: Vec::new(),
        added_layers: Vec::new(),
        removed_layers: Vec::new(),
        modified_layers: Vec::new(),
        added_parameters: Vec::new(),
        removed_parameters: Vec::new(),
        modified_parameters: Vec::new(),
        added_constraints: Vec::new(),
        removed_constraints: Vec::new(),
        modified_constraints: Vec::new(),
        metadata_changed: false,
        units_changed: false,
    }
}

#[test]
fn comparison_counts_and_summary() {
    let empty = empty_comparison();
    assert!(empty.is_empty());
    assert_eq!(empty.summary(), "0 added, 0 removed, 0 modified");
    let mut changed = empty_comparison();
    changed.added_entities = vec![4, 5];
    changed.added_layers = vec![2];
    changed.removed_parameters = vec![1];
    changed.modified_constraints = vec![3];
    changed.units_changed = true;
    assert!(!changed.is_empty());
    assert_eq!(changed.summary(), "3 added, 1 removed, 2 modified");
    let mut metadata_only = empty_comparison();
    metadata_only.metadata_changed = true;
    assert!(!metadata_only.is_empty());
}

#[test]
fn compare_maps_reports_added_removed_and_modified_keys() {
    let base = vec![(1u64, 10u64), (2, 20), (4, 40)];
    let target = vec![(2u64, 21u64), (3, 30), (4, 40)];
    let (added, removed, modified) = compare_maps(&base, &target);
    assert_eq!(added, vec![3]);
    assert_eq!(removed, vec![1]);
    assert_eq!(modified, vec![2]);
}

#[test]
fn compare_maps_compares_layer_content() {
    let layer = |id, name: &str, locked| Layer {
        id,
        name: name.to_owned(),
        visible: true,
        locked,
        color: [1, 2, 3, 255],
    };
    let base = vec![(1u64, layer(1, "Concept", false)), (2, layer(2, "Walls", false))];
    let target = vec![(1u64, layer(1, "Concept", false)), (2, layer(2, "Walls", true))];
    let (added, removed, modified) = compare_maps(&base, &target);
    assert!(added.is_empty() && removed.is_empty());
    assert_eq!(modified, vec![2]);
}

#[test]
fn history_defaults() {
    assert_eq!(default_snapshot_interval(), 4);
    assert_eq!(default_next_commit_id(), 1);
}

#[test]
fn new_history_has_only_the_root() {
    let graph = CommitGraph::new();
    assert_eq!(graph.head(), 0);
    assert_eq!(graph.active_branch(), "main");
    assert!(!graph.can_undo());
    assert!(!graph.can_redo());
    assert_eq!(graph.parent(0), Some(None));
    assert_eq!(graph.parent(1), None);
}

#[test]
fn undo_and_redo_move_along_the_branch() {
    let mut graph = CommitGraph::new();
    assert_eq!(graph.record_commit().ok(), Some(1));
    assert_eq!(graph.record_commit().ok(), Some(2));
    assert_eq!(graph.parent(2), Some(Some(1)));
    assert_eq!(graph.undo().ok(), Some(1));
    assert_eq!(graph.head(), 1);
    assert!(graph.can_redo());
    assert_eq!(graph.undo().ok(), Some(0));
    assert!(matches!(graph.undo(), Err(HistoryError::NothingToUndo)));
    assert_eq!(graph.redo().ok(), Some(1));
    assert_eq!(graph.redo().ok(), Some(2));
    assert!(!graph.can_redo());
    assert!(matches!(graph.redo(), Err(HistoryError::NothingToRedo)));
    assert_eq!(graph.head(), 2);
}

#[test]
fn a_new_commit_clears_the_redo_stack() {
    let mut graph = CommitGraph::new();
    graph.record_commit().ok().unwrap();
    graph.undo().ok().unwrap();
    assert!(graph.can_redo());
    assert_eq!(graph.record_commit().ok(), Some(2));
    assert_eq!(graph.parent(2), Some(Some(0)));
    assert!(!graph.can_redo());
    assert!(graph.is_ancestor(0, 2).ok().unwrap());
    assert!(!graph.is_ancestor(1, 2).ok().unwrap());
}

#[test]
fn branches_are_created_checked_out_and_kept_apart() {
    let mut graph = CommitGraph::new();
    graph.record_commit().ok().unwrap();
    assert!(matches!(graph.create_branch("  ".to_owned(), 0), Err(HistoryError::InvalidBranchName)));
    assert!(matches!(graph.create_branch("main".to_owned(), 0), Err(HistoryError::BranchExists(ref n)) if n == "main"));
    assert!(matches!(graph.create_branch("idea".to_owned(), 9), Err(HistoryError::CommitMissing(9))));
    assert!(graph.create_branch("idea".to_owned(), 0).is_ok());
    assert_eq!(graph.checkout_branch("idea").ok(), Some(0));
    assert_eq!(graph.record_commit().ok(), Some(2));
    assert_eq!(graph.branch_head("main"), Some(1));
    assert_eq!(graph.branch_head("idea"), Some(2));
    assert!(matches!(graph.checkout_branch("nope"), Err(HistoryError::BranchMissing(ref n)) if n == "nope"));
    assert_eq!(graph.checkout_branch("main").ok(), Some(1));
    assert!(!graph.is_ancestor(2, 1).ok().unwrap());
    assert!(matches!(graph.is_ancestor(7, 1), Err(HistoryError::CommitMissing(7))));
    assert!(matches!(graph.is_ancestor(0, 8), Err(HistoryError::CommitMissing(8))));
}

#[test]
fn redo_after_undo_restores_the_head() {
    let mut graph = CommitGraph::new();
    for _ in 0..5 {
        graph.record_commit().ok().unwrap();
    }
    let head = graph.head();
    graph.undo().ok().unwrap();
    assert_eq!(graph.redo().ok(), Some(head));
    assert_eq!(graph.head(), head);
    assert!(!graph.can_redo());
}

#[test]
fn restoring_replays_from_the_nearest_snapshot() {
    let mut graph = CommitGraph::new();
    for _ in 0..5 {
        assert!(graph.record_commit().is_ok());
    }
    let ids: Vec<u64> = graph.ordered_commits().iter().map(|c| c.id).collect();
    assert_eq!(ids, vec![0, 1, 2, 3, 4, 5]);
    assert!(matches!(graph.restore_path(5), Ok((4, ref path)) if *path == vec![5]));
    assert!(matches!(graph.restore_path(3), Ok((0, ref path)) if *path == vec![1, 2, 3]));
    assert!(matches!(graph.restore_path(4), Ok((4, ref path)) if path.is_empty()));
    assert!(matches!(graph.restore_path(0), Ok((0, ref path)) if path.is_empty()));
    assert!(matches!(graph.restore_path(9), Err(HistoryError::CommitMissing(9))));
}
