//! Replaying a stored history's log: each commit's transaction applied to
//! its parent's replayed document, and the result held against the diff the
//! commit stored.

use vstd::prelude::*;

use crate::command::{document_problem, transaction_outcome, CadDocument, CommandTransaction, DocumentFacts, DocumentView};
use crate::document::DocumentDiff;
use crate::history::{
    history_view, parent_of, redo_outcome, replay_plan, CommitGraph, HistoryError, HistoryFault,
    HistoryState,
};
use crate::integrity::{
    fault_of, integrity_fault, key_index, key_pos, lemma_key_pos, HistoryParts, PartsView, ReplayFindings,
};
use crate::text::{decimal, push_decimal, push_str};
use crate::CommitId;

verus! {

/// What a commit stored besides its place in the graph: the transaction it
/// applied and the diff it recorded.
pub struct StoredCommit {
    pub transaction: CommandTransaction,
    pub diff: DocumentDiff,
}

pub open spec fn diff_mismatch_message(id: CommitId) -> Seq<char> {
    "commit "@ + decimal(id as nat) + " has a diff that does not match its transaction"@
}

/// The document replayed at commit position `i`: the root's document for
/// the root, and for any other commit its transaction applied to its
/// parent's replayed document (the root's, or that of an earlier position).
/// None where the structure or a replay fails.
pub open spec fn replayed_state(
    p: PartsView,
    root: DocumentView,
    log: Seq<StoredCommit>,
    facts: Seq<DocumentFacts>,
    i: int,
) -> Option<DocumentView>
    decreases i,
{
    if i < 0 || i >= p.commits.len() || i >= log.len() || i >= facts.len() {
        None
    } else if p.commits[i].0 == 0 {
        Some(root)
    } else {
        match parent_base(p, root, log, facts, i) {
            None => None,
            Some(d) => match transaction_outcome(log[i].transaction.commands@, d, facts[i]) {
                Ok((fin, _)) => Some(fin),
                Err(_) => None,
            },
        }
    }
}

/// The replayed document the commit at position `i` starts from.
pub open spec fn parent_base(
    p: PartsView,
    root: DocumentView,
    log: Seq<StoredCommit>,
    facts: Seq<DocumentFacts>,
    i: int,
) -> Option<DocumentView>
    decreases i, 0int,
{
    if i < 0 || i >= p.commits.len() {
        None
    } else {
        match p.commits[i].1.parent {
            None => None,
            Some(q) => if q == 0 {
                Some(root)
            } else {
                match key_pos(p.commits, q, 0) {
                    Some(k) => if 0 <= k < i {
                        replayed_state(p, root, log, facts, k)
                    } else {
                        None
                    },
                    None => None,
                }
            },
        }
    }
}

/// What replaying the commit at position `i` finds: what its transaction
/// reports on its parent's replayed document, or a diff other than the one
/// it stored. Nothing for the root, or where the structure is at fault.
pub open spec fn commit_replay_finding(
    p: PartsView,
    root: DocumentView,
    log: Seq<StoredCommit>,
    facts: Seq<DocumentFacts>,
    i: int,
) -> Option<HistoryFault> {
    if p.commits[i].0 == 0 {
        None
    } else {
        match parent_base(p, root, log, facts, i) {
            None => None,
            Some(d) => match transaction_outcome(log[i].transaction.commands@, d, facts[i]) {
                Err(f) => Some(HistoryFault::Command(f)),
                Ok((_, x)) => if x == log[i].diff@ {
                    None
                } else {
                    Some(HistoryFault::InvalidHistory(diff_mismatch_message(p.commits[i].0)))
                },
            },
        }
    }
}

/// What checking the root's document finds.
pub open spec fn root_replay_finding(root: DocumentView, facts: DocumentFacts) -> Option<HistoryFault> {
    match document_problem(root, facts) {
        Some(f) => Some(HistoryFault::Command(f)),
        None => None,
    }
}

fn same_ids(a: &Vec<u64>, b: &Vec<u64>) -> (r: bool)
    ensures
        r == (a@ == b@),
{
    if a.len() != b.len() {
        return false;
    }
    let mut i: usize = 0;
    while i < a.len()
        invariant
            a@.len() == b@.len(),
            i <= a@.len(),
            forall|j: int| 0 <= j < i ==> a@[j] == b@[j],
        decreases a@.len() - i,
    {
        if a[i] != b[i] {
            return false;
        }
        i += 1;
    }
    proof {
        assert(a@ =~= b@);
    }
    true
}

/// Whether two diffs list the same changes.
pub fn same_diff(a: &DocumentDiff, b: &DocumentDiff) -> (r: bool)
    ensures
        r == (a@ == b@),
{
    same_ids(&a.created_entities, &b.created_entities) && same_ids(&a.updated_entities, &b.updated_entities)
        && same_ids(&a.deleted_entities, &b.deleted_entities) && same_ids(&a.created_layers, &b.created_layers)
        && same_ids(&a.updated_layers, &b.updated_layers) && same_ids(&a.deleted_layers, &b.deleted_layers)
        && same_ids(&a.updated_parameters, &b.updated_parameters) && same_ids(
        &a.deleted_parameters,
        &b.deleted_parameters,
    ) && same_ids(&a.created_constraints, &b.created_constraints) && same_ids(
        &a.updated_constraints,
        &b.updated_constraints,
    ) && same_ids(&a.deleted_constraints, &b.deleted_constraints)
}

fn diff_mismatch(id: CommitId) -> (e: HistoryError)
    ensures
        e@ == HistoryFault::InvalidHistory(diff_mismatch_message(id)),
{
    let mut m = String::new();
    push_str(&mut m, "commit ");
    push_decimal(&mut m, id);
    push_str(&mut m, " has a diff that does not match its transaction");
    proof {
        assert(m@ =~= diff_mismatch_message(id));
    }
    HistoryError::InvalidHistory(m)
}

pub open spec fn opt_doc_view(d: Option<CadDocument>) -> Option<DocumentView> {
    match d {
        Some(x) => Some(x@),
        None => None,
    }
}

/// Replays the log of a stored history: the root's document checked with
/// `root_facts`, and each commit's transaction applied to its parent's
/// replayed document with the host's facts for the result, its diff held
/// against the stored one. `log` and `facts` follow the commits' positions;
/// the snapshots' findings are handed over as given.
pub fn replay_findings(
    parts: &HistoryParts,
    root: &CadDocument,
    root_facts: &DocumentFacts,
    log: &Vec<StoredCommit>,
    facts: &Vec<DocumentFacts>,
    snapshots: Vec<Option<HistoryError>>,
) -> (f: ReplayFindings)
    requires
        log@.len() == parts@.commits.len(),
        facts@.len() == parts@.commits.len(),
    ensures
        fault_of(f.root) == root_replay_finding(root@, *root_facts),
        f.commits@.len() == parts@.commits.len(),
        forall|i: int|
            0 <= i < parts@.commits.len() ==> fault_of(#[trigger] f.commits@[i]) == commit_replay_finding(
                parts@,
                root@,
                log@,
                facts@,
                i,
            ),
        f.snapshots == snapshots,
{
    let ghost p = parts@;
    let root_finding = match root.validate(root_facts) {
        Ok(()) => None,
        Err(e) => Some(HistoryError::Command(e)),
    };
    let n = parts.commits.len();
    let mut states: Vec<Option<CadDocument>> = Vec::new();
    let mut found: Vec<Option<HistoryError>> = Vec::new();
    let mut i: usize = 0;
    while i < n
        invariant
            n == p.commits.len(),
            p == parts@,
            log@.len() == n,
            facts@.len() == n,
            i <= n,
            states@.len() == i,
            found@.len() == i,
            forall|j: int| 0 <= j < i ==> opt_doc_view(#[trigger] states@[j]) == replayed_state(p, root@, log@, facts@, j),
            forall|j: int| 0 <= j < i ==> fault_of(#[trigger] found@[j]) == commit_replay_finding(p, root@, log@, facts@, j),
        decreases n - i,
    {
        let (key, node) = parts.commits[i];
        if key == 0 {
            states.push(Some(root.copy()));
            found.push(None);
        } else {
            let base: Option<CadDocument> = match node.parent {
                None => None,
                Some(q) => if q == 0 {
                    Some(root.copy())
                } else {
                    match key_index(&parts.commits, q) {
                        None => None,
                        Some(k) => if k < i {
                            match &states[k] {
                                Some(d) => Some(d.copy()),
                                None => None,
                            }
                        } else {
                            None
                        },
                    }
                },
            };
            proof {
                assert(opt_doc_view(base) == parent_base(p, root@, log@, facts@, i as int));
            }
            match base {
                None => {
                    states.push(None);
                    found.push(None);
                },
                Some(d) => {
                    let mut doc = d;
                    match log[i].transaction.apply(&mut doc, &facts[i]) {
                        Err(e) => {
                            states.push(None);
                            found.push(Some(HistoryError::Command(e)));
                        },
                        Ok(diff) => {
                            let finding = if same_diff(&diff, &log[i].diff) {
                                None
                            } else {
                                Some(diff_mismatch(key))
                            };
                            states.push(Some(doc));
                            found.push(finding);
                        },
                    }
                },
            }
        }
        proof {
            assert(opt_doc_view(states@[i as int]) == replayed_state(p, root@, log@, facts@, i as int));
            assert(fault_of(found@[i as int]) == commit_replay_finding(p, root@, log@, facts@, i as int));
        }
        i += 1;
    }
    ReplayFindings { root: root_finding, commits: found, snapshots }
}

/// The value stored under `id`: the first entry keyed `id`.
pub open spec fn entry_for<V>(entries: Seq<(CommitId, V)>, id: CommitId) -> Option<V> {
    match key_pos(entries, id, 0) {
        Some(k) => Some(entries[k].1),
        None => None,
    }
}

pub open spec fn missing_document_message(id: CommitId) -> Seq<char> {
    "snapshot "@ + decimal(id as nat) + " has no stored document"@
}

pub open spec fn missing_facts_message(id: CommitId) -> Seq<char> {
    "commit "@ + decimal(id as nat) + " has no replay facts"@
}

/// `d` with the transactions of the commits of `path` applied in order,
/// each checked with the host's facts for its result.
pub open spec fn replay_steps(
    d: DocumentView,
    path: Seq<CommitId>,
    log: Seq<(CommitId, StoredCommit)>,
    facts: Seq<(CommitId, DocumentFacts)>,
) -> Result<DocumentView, HistoryFault>
    decreases path.len(),
{
    if path.len() == 0 {
        Ok(d)
    } else {
        match replay_step(d, path[0], log, facts) {
            Err(f) => Err(f),
            Ok(fin) => replay_steps(fin, path.drop_first(), log, facts),
        }
    }
}

/// `d` with the transaction of commit `id` applied, checked with the host's
/// facts for its result.
#[verifier::opaque]
pub open spec fn replay_step(
    d: DocumentView,
    id: CommitId,
    log: Seq<(CommitId, StoredCommit)>,
    facts: Seq<(CommitId, DocumentFacts)>,
) -> Result<DocumentView, HistoryFault> {
    match entry_for(log, id) {
        None => Err(HistoryFault::CommitMissing(id)),
        Some(c) => match entry_for(facts, id) {
            None => Err(HistoryFault::InvalidHistory(missing_facts_message(id))),
            Some(f) => match transaction_outcome(c.transaction.commands@, d, f) {
                Err(x) => Err(HistoryFault::Command(x)),
                Ok((fin, _)) => Ok(fin),
            },
        },
    }
}

fn replay_commit(
    doc: &mut CadDocument,
    id: CommitId,
    log: &Vec<(CommitId, StoredCommit)>,
    facts: &Vec<(CommitId, DocumentFacts)>,
) -> (r: Result<(), HistoryError>)
    ensures
        match replay_step(old(doc)@, id, log@, facts@) {
            Ok(fin) => r is Ok && final(doc)@ == fin,
            Err(f) => r matches Err(e) && e@ == f,
        },
{
    reveal(replay_step);
    let c = match key_index(log, id) {
        None => {
            return Err(HistoryError::CommitMissing(id));
        },
        Some(c) => c,
    };
    let f = match key_index(facts, id) {
        None => {
            return Err(invalid_with_id("commit ", id, " has no replay facts"));
        },
        Some(f) => f,
    };
    match log[c].1.transaction.apply(doc, &facts[f].1) {
        Err(e) => Err(HistoryError::Command(e)),
        Ok(_) => Ok(()),
    }
}

/// The document at commit `target`: the snapshot its replay starts from,
/// checked, with the commits after it replayed in order.
pub open spec fn restored(
    s: HistoryState,
    target: CommitId,
    snapshots: Seq<(CommitId, CadDocument)>,
    log: Seq<(CommitId, StoredCommit)>,
    facts: Seq<(CommitId, DocumentFacts)>,
) -> Result<DocumentView, HistoryFault> {
    if parent_of(s, target) is None {
        Err(HistoryFault::CommitMissing(target))
    } else {
        match replay_plan(s, target) {
            Err(f) => Err(f),
            Ok((start, path)) => match entry_for(snapshots, start) {
                None => Err(HistoryFault::InvalidHistory(missing_document_message(start))),
                Some(doc) => match entry_for(facts, start) {
                    None => Err(HistoryFault::InvalidHistory(missing_facts_message(start))),
                    Some(f) => match document_problem(doc@, f) {
                        Some(x) => Err(HistoryFault::Command(x)),
                        None => replay_steps(doc@, path, log, facts),
                    },
                },
            },
        }
    }
}

fn invalid_with_id(head: &str, id: CommitId, tail: &str) -> (e: HistoryError)
    ensures
        e@ == HistoryFault::InvalidHistory(head@ + decimal(id as nat) + tail@),
{
    let mut m = String::new();
    push_str(&mut m, head);
    push_decimal(&mut m, id);
    push_str(&mut m, tail);
    proof {
        assert(m@ =~= head@ + decimal(id as nat) + tail@);
    }
    HistoryError::InvalidHistory(m)
}

/// Restores the document at commit `target` from the stored snapshot
/// documents, the stored commits and the host's facts for each document.
pub fn restore_document(
    graph: &CommitGraph,
    target: CommitId,
    snapshots: &Vec<(CommitId, CadDocument)>,
    log: &Vec<(CommitId, StoredCommit)>,
    facts: &Vec<(CommitId, DocumentFacts)>,
) -> (r: Result<CadDocument, HistoryError>)
    ensures
        match restored(graph@, target, snapshots@, log@, facts@) {
            Ok(d) => r matches Ok(doc) && doc@ == d,
            Err(f) => r matches Err(e) && e@ == f,
        },
{
    let (start, path) = match graph.restore_path(target) {
        Err(e) => {
            return Err(e);
        },
        Ok(x) => x,
    };
    let s = match key_index(snapshots, start) {
        None => {
            return Err(invalid_with_id("snapshot ", start, " has no stored document"));
        },
        Some(s) => s,
    };
    let fs = match key_index(facts, start) {
        None => {
            return Err(invalid_with_id("commit ", start, " has no replay facts"));
        },
        Some(k) => k,
    };
    match snapshots[s].1.validate(&facts[fs].1) {
        Err(e) => {
            return Err(HistoryError::Command(e));
        },
        Ok(()) => {},
    }
    let mut doc = snapshots[s].1.copy();
    let ghost p = path@;
    proof {
        assert(p.skip(0) =~= p);
        assert(restored(graph@, target, snapshots@, log@, facts@) == replay_steps(snapshots@[s as int].1@, p, log@, facts@));
    }
    let mut k: usize = 0;
    while k < path.len()
        invariant
            p == path@,
            k <= p.len(),
            s < snapshots@.len(),
            restored(graph@, target, snapshots@, log@, facts@) == replay_steps(snapshots@[s as int].1@, p, log@, facts@),
            replay_steps(snapshots@[s as int].1@, p, log@, facts@) == replay_steps(doc@, p.skip(k as int), log@, facts@),
        decreases p.len() - k,
    {
        let id = path[k];
        proof {
            assert(p.skip(k as int)[0] == id);
            assert(p.skip(k as int).drop_first() =~= p.skip(k + 1));
        }
        match replay_commit(&mut doc, id, log, facts) {
            Err(e) => {
                return Err(e);
            },
            Ok(()) => {},
        }
        k += 1;
    }
    proof {
        assert(p.skip(p.len() as int) =~= Seq::<CommitId>::empty());
    }
    Ok(doc)
}

/// Redoes the most recently undone commit of the active branch and hands
/// back the document restored at it; when the document cannot be restored,
/// the history is left as it was.
pub fn redo_with_document(
    graph: &mut CommitGraph,
    snapshots: &Vec<(CommitId, CadDocument)>,
    log: &Vec<(CommitId, StoredCommit)>,
    facts: &Vec<(CommitId, DocumentFacts)>,
) -> (r: Result<(CadDocument, CommitId), HistoryError>)
    ensures
        match redo_outcome(old(graph)@) {
            (_, Err(f)) => r matches Err(e) && e@ == f && final(graph)@ == old(graph)@,
            (after, Ok(c)) => match restored(old(graph)@, c, snapshots@, log@, facts@) {
                Err(f) => r matches Err(e) && e@ == f && final(graph)@ == old(graph)@,
                Ok(d) => r matches Ok((doc, x)) && x == c && doc@ == d && final(graph)@ == after,
            },
        },
{
    let c = match graph.redo_target() {
        Err(e) => {
            return Err(e);
        },
        Ok(c) => c,
    };
    let doc = match restore_document(graph, c, snapshots, log, facts) {
        Err(e) => {
            return Err(e);
        },
        Ok(d) => d,
    };
    match graph.redo() {
        Err(e) => Err(e),
        Ok(x) => Ok((doc, x)),
    }
}

impl HistoryParts {
    /// Checks a stored history with its log replayed here: the structure as
    /// `validate_integrity` checks it, with the root's document, every
    /// commit's replay, and the snapshots' findings as given.
    pub fn validate_replayed(
        &self,
        root: &CadDocument,
        root_facts: &DocumentFacts,
        log: &Vec<StoredCommit>,
        facts: &Vec<DocumentFacts>,
        snapshots: Vec<Option<HistoryError>>,
    ) -> (r: Result<(), HistoryError>)
        requires
            log@.len() == self@.commits.len(),
            facts@.len() == self@.commits.len(),
        ensures
            exists|f: ReplayFindings|
                {
                    &&& fault_of(f.root) == root_replay_finding(root@, *root_facts)
                    &&& f.commits@.len() == self@.commits.len()
                    &&& forall|i: int|
                        0 <= i < self@.commits.len() ==> fault_of(#[trigger] f.commits@[i])
                            == commit_replay_finding(self@, root@, log@, facts@, i)
                    &&& f.snapshots == snapshots
                    &&& match integrity_fault(self@, f) {
                        Some(x) => r matches Err(e) && e@ == x,
                        None => r is Ok,
                    }
                },
    {
        let found = replay_findings(self, root, root_facts, log, facts, snapshots);
        let ghost g = found;
        self.validate_integrity(found)
    }
}

} // verus!
