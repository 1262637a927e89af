use cadx_core::document::CommandError;
use cadx_core::history::{CommitGraph, CommitNode, DesignBranch, HistoryError, RedoEntry};
use cadx_core::integrity::{HistoryParts, ReplayFindings};

fn node(id: u64, parent: Option<u64>) -> (u64, CommitNode) {
    (id, CommitNode { id, parent })
}

fn branch(key: &str, name: &str, head: u64) -> (String, DesignBranch) {
    (key.to_owned(), DesignBranch { name: name.to_owned(), head })
}

/// Root 0, then 1 and 2 on `main`, whose head is 2.
fn linear_parts() -> HistoryParts {
    HistoryParts {
        commits: vec![node(0, None), node(1, Some(0)), node(2, Some(1))],
        root_plain: true,
        snapshots: vec![(0, 0)],
        branches: vec![branch("main", "main", 2)],
        active_branch: "main".to_owned(),
        redo: Vec::new(),
        snapshot_interval: 4,
        next_commit_id: 3,
    }
}

fn clean() -> ReplayFindings {
    ReplayFindings { root: None, commits: Vec::new(), snapshots: Vec::new() }
}

fn message(r: Result<(), HistoryError>) -> String {
    match r {
        Err(HistoryError::InvalidHistory(m)) => m,
        Err(_) => panic!("another kind of error"),
        Ok(()) => panic!("accepted"),
    }
}

#[test]
fn intact_history_rebuilds_its_commit_graph() {
    let parts = linear_parts();
    assert!(parts.validate_integrity(clean()).is_ok());
    let graph = match CommitGraph::from_parts(&parts, clean()) {
        Ok(g) => g,
        Err(_) => panic!("rejected"),
    };
    assert_eq!(graph.head(), 2);
    assert_eq!(graph.active_branch(), "main");
    assert_eq!(graph.parent(2), Some(Some(1)));
    assert!(graph.can_undo());
    assert!(!graph.can_redo());
}

#[test]
fn redo_stacks_are_carried_over_and_empty_ones_dropped() {
    let mut parts = linear_parts();
    parts.branches = vec![branch("main", "main", 1)];
    parts.redo = vec![
        RedoEntry { branch: "main".to_owned(), commits: vec![2] },
    ];
    let mut graph = match CommitGraph::from_parts(&parts, clean()) {
        Ok(g) => g,
        Err(_) => panic!("rejected"),
    };
    assert!(graph.can_redo());
    assert!(matches!(graph.redo(), Ok(2)));
    assert_eq!(graph.head(), 2);

    let mut parts = linear_parts();
    parts.redo = vec![RedoEntry { branch: "main".to_owned(), commits: Vec::new() }];
    let graph = match CommitGraph::from_parts(&parts, clean()) {
        Ok(g) => g,
        Err(_) => panic!("rejected"),
    };
    assert!(!graph.can_redo());
}

#[test]
fn root_commit_and_snapshot_are_required() {
    let mut parts = linear_parts();
    parts.commits.remove(0);
    assert_eq!(message(parts.validate_integrity(clean())), "missing root commit");

    let mut parts = linear_parts();
    parts.commits[0] = node(0, Some(0));
    assert_eq!(
        message(parts.validate_integrity(clean())),
        "root commit must be an empty parentless transaction"
    );

    let mut parts = linear_parts();
    parts.root_plain = false;
    assert_eq!(
        message(parts.validate_integrity(clean())),
        "root commit must be an empty parentless transaction"
    );

    let mut parts = linear_parts();
    parts.snapshots = vec![(1, 1)];
    assert_eq!(message(parts.validate_integrity(clean())), "missing root snapshot");

    let mut parts = linear_parts();
    parts.snapshots = vec![(0, 3)];
    assert_eq!(message(parts.validate_integrity(clean())), "root snapshot has an invalid commit id");
}

#[test]
fn commits_need_matching_keys_and_earlier_replayed_parents() {
    let mut parts = linear_parts();
    parts.commits[1] = (1, CommitNode { id: 7, parent: Some(0) });
    assert_eq!(
        message(parts.validate_integrity(clean())),
        "commit map key 1 does not match commit id 7"
    );

    let mut parts = linear_parts();
    parts.commits[2] = node(2, None);
    assert_eq!(message(parts.validate_integrity(clean())), "commit 2 is missing a parent");

    let mut parts = linear_parts();
    parts.commits[1] = node(1, Some(5));
    assert_eq!(
        message(parts.validate_integrity(clean())),
        "commit 1 has a non-ancestral parent 5"
    );

    let mut parts = linear_parts();
    parts.commits.remove(1);
    assert_eq!(message(parts.validate_integrity(clean())), "commit 2 has a missing parent 1");
}

#[test]
fn replay_findings_are_reported_in_order() {
    let parts = linear_parts();
    let found = ReplayFindings {
        root: Some(HistoryError::CandidateValidationFailed("root".to_owned())),
        commits: vec![None, Some(HistoryError::NothingToUndo)],
        snapshots: Vec::new(),
    };
    assert!(matches!(
        parts.validate_integrity(found),
        Err(HistoryError::CandidateValidationFailed(m)) if m == "root"
    ));

    let found = ReplayFindings {
        root: None,
        commits: vec![None, Some(HistoryError::Command(CommandError::EntityMissing(4)))],
        snapshots: vec![Some(HistoryError::NothingToRedo)],
    };
    assert!(matches!(
        parts.validate_integrity(found),
        Err(HistoryError::Command(CommandError::EntityMissing(4)))
    ));

    let found = ReplayFindings {
        root: None,
        commits: Vec::new(),
        snapshots: vec![Some(HistoryError::InvalidHistory("snapshot 0 does not match".to_owned()))],
    };
    assert_eq!(message(parts.validate_integrity(found)), "snapshot 0 does not match");

    // A structural fault of a commit comes before a later commit's finding.
    let mut broken = linear_parts();
    broken.commits[1] = node(1, None);
    let found = ReplayFindings { root: None, commits: vec![None, None, Some(HistoryError::NothingToUndo)], snapshots: Vec::new() };
    assert_eq!(message(broken.validate_integrity(found)), "commit 1 is missing a parent");
}

#[test]
fn snapshots_and_branches_must_reference_commits() {
    let mut parts = linear_parts();
    parts.snapshots.push((8, 8));
    assert_eq!(
        message(parts.validate_integrity(clean())),
        "snapshot 8 does not reference an existing matching commit"
    );

    let mut parts = linear_parts();
    parts.snapshots.push((2, 1));
    assert_eq!(
        message(parts.validate_integrity(clean())),
        "snapshot 2 does not reference an existing matching commit"
    );

    let mut parts = linear_parts();
    parts.branches.push(branch("  ", "  ", 1));
    assert_eq!(
        message(parts.validate_integrity(clean())),
        "branch names must be non-empty and match their map keys"
    );

    let mut parts = linear_parts();
    parts.branches.push(branch("draft", "sketch", 1));
    assert_eq!(
        message(parts.validate_integrity(clean())),
        "branch names must be non-empty and match their map keys"
    );

    let mut parts = linear_parts();
    parts.branches.push(branch("feature", "feature", 9));
    assert_eq!(
        message(parts.validate_integrity(clean())),
        "branch feature points to missing commit 9"
    );

    let mut parts = linear_parts();
    parts.active_branch = "review".to_owned();
    assert_eq!(message(parts.validate_integrity(clean())), "active branch does not exist");
}

#[test]
fn redo_stacks_must_climb_from_their_branch_head() {
    let mut parts = linear_parts();
    parts.redo = vec![RedoEntry { branch: "gone".to_owned(), commits: vec![2] }];
    assert_eq!(
        message(parts.validate_integrity(clean())),
        "redo stack references missing branch gone"
    );

    let mut parts = linear_parts();
    parts.redo = vec![RedoEntry { branch: "main".to_owned(), commits: vec![6] }];
    assert_eq!(
        message(parts.validate_integrity(clean())),
        "redo stack on branch main references missing commit 6"
    );

    let mut parts = linear_parts();
    parts.redo = vec![RedoEntry { branch: "main".to_owned(), commits: vec![1] }];
    assert_eq!(
        message(parts.validate_integrity(clean())),
        "redo stack on branch main is not contiguous at commit 1"
    );
}

#[test]
fn counters_must_be_usable() {
    let mut parts = linear_parts();
    parts.snapshot_interval = 0;
    assert_eq!(
        message(parts.validate_integrity(clean())),
        "snapshot interval must be greater than zero"
    );

    let mut parts = linear_parts();
    parts.next_commit_id = 2;
    assert_eq!(
        message(parts.validate_integrity(clean())),
        "next commit id is behind existing history"
    );

    let mut parts = linear_parts();
    parts.commits.push(node(u64::MAX, Some(2)));
    parts.next_commit_id = u64::MAX;
    assert!(matches!(
        parts.validate_integrity(clean()),
        Err(HistoryError::Command(CommandError::InvalidDocument(m))) if m == "commit id space is exhausted"
    ));
}

#[test]
fn rebuilding_reports_the_first_fault() {
    let mut parts = linear_parts();
    parts.next_commit_id = 1;
    assert!(matches!(
        CommitGraph::from_parts(&parts, clean()),
        Err(HistoryError::InvalidHistory(m)) if m == "next commit id is behind existing history"
    ));
}

fn plan_facts() -> cadx_core::command::DocumentFacts {
    cadx_core::command::DocumentFacts { evaluation_fault: None, dimension_faults: std::collections::BTreeMap::new() }
}

fn add_layer(id: u64, name: &str) -> cadx_core::command::CommandTransaction {
    cadx_core::command::CommandTransaction::new(vec![cadx_core::command::CadCommand::CreateLayer {
        layer: cadx_core::document::Layer { id, name: name.to_owned(), visible: true, locked: false, color: [1, 2, 3, 255] },
    }])
}

fn stored(root: &cadx_core::command::CadDocument, steps: &[(u64, &str)]) -> Vec<cadx_core::replay::StoredCommit> {
    let mut log = vec![cadx_core::replay::StoredCommit {
        transaction: cadx_core::command::CommandTransaction::new(Vec::new()),
        diff: cadx_core::document::DocumentDiff::empty(),
    }];
    let mut doc = root.copy();
    for (id, name) in steps {
        let diff = add_layer(*id, name).apply(&mut doc, &plan_facts()).ok().unwrap();
        log.push(cadx_core::replay::StoredCommit { transaction: add_layer(*id, name), diff });
    }
    log
}

#[test]
fn replayed_logs_must_reproduce_their_diffs() {
    let parts = linear_parts();
    let root = cadx_core::command::CadDocument::new("Plan");
    let facts = vec![plan_facts(), plan_facts(), plan_facts()];
    let log = stored(&root, &[(2, "Walls"), (3, "Roof")]);
    assert!(parts.validate_replayed(&root, &plan_facts(), &log, &facts, Vec::new()).is_ok());

    let mut swapped = stored(&root, &[(2, "Walls"), (3, "Roof")]);
    swapped[2].diff = cadx_core::document::DocumentDiff::empty();
    assert_eq!(
        message(parts.validate_replayed(&root, &plan_facts(), &swapped, &facts, Vec::new())),
        "commit 2 has a diff that does not match its transaction"
    );

    let mut clashing = stored(&root, &[(2, "Walls"), (3, "Roof")]);
    clashing[2].transaction = add_layer(2, "Again");
    assert!(matches!(
        parts.validate_replayed(&root, &plan_facts(), &clashing, &facts, Vec::new()),
        Err(HistoryError::Command(_))
    ));

    let findings = cadx_core::replay::replay_findings(&parts, &root, &plan_facts(), &log, &facts, Vec::new());
    assert!(findings.root.is_none());
    assert!(findings.commits.iter().all(|f| f.is_none()));
}

fn store(root: &cadx_core::command::CadDocument) -> (
    Vec<(u64, cadx_core::command::CadDocument)>,
    Vec<(u64, cadx_core::replay::StoredCommit)>,
    Vec<(u64, cadx_core::command::DocumentFacts)>,
) {
    let log = stored(root, &[(2, "Walls"), (3, "Roof")]);
    let keyed: Vec<(u64, cadx_core::replay::StoredCommit)> = log.into_iter().enumerate().map(|(i, c)| (i as u64, c)).collect();
    (vec![(0, root.copy())], keyed, vec![(0, plan_facts()), (1, plan_facts()), (2, plan_facts())])
}

#[test]
fn restoring_and_redoing_replay_from_the_nearest_snapshot() {
    let root = cadx_core::command::CadDocument::new("Plan");
    let (snapshots, log, facts) = store(&root);
    let graph = CommitGraph::from_parts(&linear_parts(), clean()).ok().unwrap();
    let at_two = cadx_core::replay::restore_document(&graph, 2, &snapshots, &log, &facts).ok().unwrap();
    assert_eq!(at_two.layers.len(), root.layers.len() + 2);
    let at_one = cadx_core::replay::restore_document(&graph, 1, &snapshots, &log, &facts).ok().unwrap();
    assert_eq!(at_one.layers.len(), root.layers.len() + 1);
    assert!(matches!(
        cadx_core::replay::restore_document(&graph, 9, &snapshots, &log, &facts),
        Err(HistoryError::CommitMissing(9))
    ));
    let short = vec![(0, plan_facts()), (1, plan_facts())];
    assert_eq!(
        message(cadx_core::replay::restore_document(&graph, 2, &snapshots, &log, &short).map(|_| ())),
        "commit 2 has no replay facts"
    );

    let mut parts = linear_parts();
    parts.branches = vec![branch("main", "main", 1)];
    parts.redo = vec![RedoEntry { branch: "main".to_owned(), commits: vec![2] }];
    let mut graph = CommitGraph::from_parts(&parts, clean()).ok().unwrap();
    let broken: Vec<(u64, cadx_core::replay::StoredCommit)> = Vec::new();
    assert!(matches!(
        cadx_core::replay::redo_with_document(&mut graph, &snapshots, &broken, &facts),
        Err(HistoryError::CommitMissing(1))
    ));
    assert_eq!(graph.head(), 1);
    match cadx_core::replay::redo_with_document(&mut graph, &snapshots, &log, &facts) {
        Ok((doc, c)) => {
            assert_eq!(c, 2);
            assert_eq!(doc.layers.len(), root.layers.len() + 2);
        },
        Err(_) => panic!("redo refused"),
    }
    assert_eq!(graph.head(), 2);
    assert!(matches!(
        cadx_core::replay::redo_with_document(&mut graph, &snapshots, &log, &facts),
        Err(HistoryError::NothingToRedo)
    ));
}
