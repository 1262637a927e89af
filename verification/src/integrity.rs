//! Integrity of a persisted history: the checks a stored commit log, its
//! snapshots, branches and redo stacks must pass before it is trusted, in
//! the order they are made.

use vstd::prelude::*;

use crate::document::{lemma_max_id, max_id, next_after, next_id_after, CommandFault};
use crate::history::{
    branch_head, graph_ok, name_pos, parents_precede, CommitNode, DesignBranch, HistoryError,
    HistoryFault, HistoryState, RedoEntry,
};
use crate::text::{decimal, is_blank, push_decimal, push_str, str_equal, str_is_blank};
use crate::CommitId;

verus! {

/// A stored history's structure before it is checked. Each table is given as
/// its (key, value) entries in key order; `root_plain` says whether the root
/// commit carries no transaction, task, change set, agent run or preparation.
pub struct HistoryParts {
    pub commits: Vec<(CommitId, CommitNode)>,
    pub root_plain: bool,
    pub snapshots: Vec<(CommitId, CommitId)>,
    pub branches: Vec<(String, DesignBranch)>,
    pub active_branch: String,
    pub redo: Vec<RedoEntry>,
    pub snapshot_interval: CommitId,
    pub next_commit_id: CommitId,
}

/// A stored history's structure as plain values.
pub struct PartsView {
    pub commits: Seq<(CommitId, CommitNode)>,
    pub root_plain: bool,
    pub snapshots: Seq<(CommitId, CommitId)>,
    pub branch_keys: Seq<Seq<char>>,
    pub branch_names: Seq<Seq<char>>,
    pub branch_heads: Seq<CommitId>,
    pub active: Seq<char>,
    pub redo: Seq<(Seq<char>, Seq<CommitId>)>,
    pub interval: CommitId,
    pub next: CommitId,
}

pub open spec fn branch_keys(bs: Seq<(String, DesignBranch)>) -> Seq<Seq<char>> {
    bs.map_values(|e: (String, DesignBranch)| e.0@)
}

impl View for HistoryParts {
    type V = PartsView;

    open spec fn view(&self) -> PartsView {
        PartsView {
            commits: self.commits@,
            root_plain: self.root_plain,
            snapshots: self.snapshots@,
            branch_keys: branch_keys(self.branches@),
            branch_names: self.branches@.map_values(|e: (String, DesignBranch)| e.1.name@),
            branch_heads: self.branches@.map_values(|e: (String, DesignBranch)| e.1.head),
            active: self.active_branch@,
            redo: self.redo@.map_values(|e: RedoEntry| (e.branch@, e.commits@)),
            interval: self.snapshot_interval,
            next: self.next_commit_id,
        }
    }
}

/// What replaying the log found, as established outside the structure: the
/// fault of the root document, of each commit's replay (by the commit's
/// position) and of each snapshot's document (by the snapshot's position).
pub struct ReplayFindings {
    pub root: Option<HistoryError>,
    pub commits: Vec<Option<HistoryError>>,
    pub snapshots: Vec<Option<HistoryError>>,
}

pub open spec fn fault_of(e: Option<HistoryError>) -> Option<HistoryFault> {
    match e {
        Some(x) => Some(x@),
        None => None,
    }
}

/// The finding at position `i`; none where nothing was reported.
pub open spec fn finding_at(v: Seq<Option<HistoryError>>, i: int) -> Option<HistoryFault> {
    if 0 <= i < v.len() {
        fault_of(v[i])
    } else {
        None
    }
}

/// The first position, from `i` on, of an entry keyed `key`.
pub open spec fn key_pos<V>(entries: Seq<(u64, V)>, key: u64, i: int) -> Option<int>
    decreases entries.len() - i,
{
    if i < 0 || i >= entries.len() {
        None
    } else if entries[i].0 == key {
        Some(i)
    } else {
        key_pos(entries, key, i + 1)
    }
}

pub proof fn lemma_key_pos<V>(entries: Seq<(u64, V)>, key: u64, i: int)
    requires
        0 <= i,
    ensures
        key_pos(entries, key, i) matches Some(k) ==> i <= k < entries.len() && entries[k].0 == key
            && forall|j: int| i <= j < k ==> #[trigger] entries[j].0 != key,
        key_pos(entries, key, i) is None ==> forall|j: int|
            i <= j < entries.len() ==> #[trigger] entries[j].0 != key,
    decreases entries.len() - i,
{
    if i < entries.len() && entries[i].0 != key {
        lemma_key_pos(entries, key, i + 1);
    }
}

pub open spec fn invalid(m: Seq<char>) -> Option<HistoryFault> {
    Some(HistoryFault::InvalidHistory(m))
}

pub open spec fn commit_key_message(key: CommitId, id: CommitId) -> Seq<char> {
    "commit map key "@ + decimal(key as nat) + " does not match commit id "@ + decimal(id as nat)
}

pub open spec fn parentless_message(id: CommitId) -> Seq<char> {
    "commit "@ + decimal(id as nat) + " is missing a parent"@
}

pub open spec fn non_ancestral_message(id: CommitId, parent: CommitId) -> Seq<char> {
    "commit "@ + decimal(id as nat) + " has a non-ancestral parent "@ + decimal(parent as nat)
}

pub open spec fn missing_parent_message(id: CommitId, parent: CommitId) -> Seq<char> {
    "commit "@ + decimal(id as nat) + " has a missing parent "@ + decimal(parent as nat)
}

pub open spec fn snapshot_message(id: CommitId) -> Seq<char> {
    "snapshot "@ + decimal(id as nat) + " does not reference an existing matching commit"@
}

pub open spec fn branch_head_message(name: Seq<char>, head: CommitId) -> Seq<char> {
    "branch "@ + name + " points to missing commit "@ + decimal(head as nat)
}

pub open spec fn redo_branch_message(name: Seq<char>) -> Seq<char> {
    "redo stack references missing branch "@ + name
}

pub open spec fn redo_commit_message(name: Seq<char>, id: CommitId) -> Seq<char> {
    "redo stack on branch "@ + name + " references missing commit "@ + decimal(id as nat)
}

pub open spec fn redo_gap_message(name: Seq<char>, id: CommitId) -> Seq<char> {
    "redo stack on branch "@ + name + " is not contiguous at commit "@ + decimal(id as nat)
}

/// The check of the commit at position `i`: its key is its id, and it has an
/// earlier parent that was replayed before it; then what its replay found.
/// The root is checked on its own.
pub open spec fn commit_entry_fault(p: PartsView, found: Seq<Option<HistoryError>>, i: int) -> Option<
    HistoryFault,
> {
    let key = p.commits[i].0;
    let node = p.commits[i].1;
    if key == 0 {
        None
    } else if key != node.id {
        invalid(commit_key_message(key, node.id))
    } else {
        match node.parent {
            None => invalid(parentless_message(key)),
            Some(q) => if q >= key {
                invalid(non_ancestral_message(key, q))
            } else if !(q == 0 || (key_pos(p.commits, q, 0) matches Some(k) && k < i)) {
                invalid(missing_parent_message(key, q))
            } else {
                finding_at(found, i)
            },
        }
    }
}

pub open spec fn commits_fault_from(p: PartsView, found: Seq<Option<HistoryError>>, i: int) -> Option<
    HistoryFault,
>
    decreases p.commits.len() - i,
{
    if i < 0 || i >= p.commits.len() {
        None
    } else if (commit_entry_fault(p, found, i) is Some) {
        commit_entry_fault(p, found, i)
    } else {
        commits_fault_from(p, found, i + 1)
    }
}

/// The check of the snapshot at position `j`: its key is its commit, which
/// exists; then what checking its document found.
pub open spec fn snapshot_entry_fault(p: PartsView, found: Seq<Option<HistoryError>>, j: int) -> Option<
    HistoryFault,
> {
    let key = p.snapshots[j].0;
    if (key != p.snapshots[j].1 || key_pos(p.commits, key, 0) is None) {
        invalid(snapshot_message(key))
    } else {
        finding_at(found, j)
    }
}

pub open spec fn snapshots_fault_from(p: PartsView, found: Seq<Option<HistoryError>>, j: int) -> Option<
    HistoryFault,
>
    decreases p.snapshots.len() - j,
{
    if j < 0 || j >= p.snapshots.len() {
        None
    } else if (snapshot_entry_fault(p, found, j) is Some) {
        snapshot_entry_fault(p, found, j)
    } else {
        snapshots_fault_from(p, found, j + 1)
    }
}

/// The check of the branch at position `k`: a non-blank key equal to its
/// name, and a head that exists.
pub open spec fn branch_entry_fault(p: PartsView, k: int) -> Option<HistoryFault> {
    if is_blank(p.branch_keys[k]) || p.branch_keys[k] != p.branch_names[k] {
        invalid("branch names must be non-empty and match their map keys"@)
    } else if (key_pos(p.commits, p.branch_heads[k], 0) is None) {
        invalid(branch_head_message(p.branch_keys[k], p.branch_heads[k]))
    } else {
        None
    }
}

pub open spec fn branches_fault_from(p: PartsView, k: int) -> Option<HistoryFault>
    decreases p.branch_keys.len() - k,
{
    if k < 0 || k >= p.branch_keys.len() {
        None
    } else if (branch_entry_fault(p, k) is Some) {
        branch_entry_fault(p, k)
    } else {
        branches_fault_from(p, k + 1)
    }
}

/// Walks a redo stack from its top down, `n` commits in: each must exist and
/// have the previous one (first the branch head) as parent.
pub open spec fn redo_chain_fault(
    commits: Seq<(CommitId, CommitNode)>,
    name: Seq<char>,
    stack: Seq<CommitId>,
    parent: CommitId,
    n: int,
) -> Option<HistoryFault>
    decreases stack.len() - n,
{
    if n < 0 || n >= stack.len() {
        None
    } else {
        let c = stack[stack.len() - 1 - n];
        match key_pos(commits, c, 0) {
            None => invalid(redo_commit_message(name, c)),
            Some(q) => if commits[q].1.parent != Some(parent) {
                invalid(redo_gap_message(name, c))
            } else {
                redo_chain_fault(commits, name, stack, c, n + 1)
            },
        }
    }
}

/// The check of the redo stack at position `j`: its branch exists and the
/// stack climbs from that branch's head.
pub open spec fn redo_entry_fault(p: PartsView, j: int) -> Option<HistoryFault> {
    let name = p.redo[j].0;
    match name_pos(p.branch_keys, name, 0) {
        None => invalid(redo_branch_message(name)),
        Some(b) => redo_chain_fault(p.commits, name, p.redo[j].1, p.branch_heads[b], 0),
    }
}

pub open spec fn redo_fault_from(p: PartsView, j: int) -> Option<HistoryFault>
    decreases p.redo.len() - j,
{
    if j < 0 || j >= p.redo.len() {
        None
    } else if (redo_entry_fault(p, j) is Some) {
        redo_entry_fault(p, j)
    } else {
        redo_fault_from(p, j + 1)
    }
}

pub open spec fn commit_keys(p: PartsView) -> Seq<CommitId> {
    p.commits.map_values(|e: (CommitId, CommitNode)| e.0)
}

/// The checks after the per-entry ones: the snapshot interval is positive and
/// the next commit id lies past every commit.
pub open spec fn counters_fault(p: PartsView) -> Option<HistoryFault> {
    if p.interval == 0 {
        invalid("snapshot interval must be greater than zero"@)
    } else {
        match next_after("commit"@, commit_keys(p)) {
            Err(m) => Some(HistoryFault::Command(CommandFault::InvalidDocument(m))),
            Ok(n) => if p.next < n {
                invalid("next commit id is behind existing history"@)
            } else {
                None
            },
        }
    }
}

/// The first of a stored history's faults, in the order the checks are made:
/// the root commit, the root snapshot and document, each commit with its
/// replay, each snapshot, each branch, the active branch, each redo stack,
/// and the counters.
pub open spec fn integrity_fault(p: PartsView, found: ReplayFindings) -> Option<HistoryFault> {
    match key_pos(p.commits, 0, 0) {
        None => invalid("missing root commit"@),
        Some(r) => if (p.commits[r].1.id != 0 || p.commits[r].1.parent is Some || !p.root_plain) {
            invalid("root commit must be an empty parentless transaction"@)
        } else {
            match key_pos(p.snapshots, 0, 0) {
                None => invalid("missing root snapshot"@),
                Some(s) => if p.snapshots[s].1 != 0 {
                    invalid("root snapshot has an invalid commit id"@)
                } else {
                    recorded_fault(p, found)
                },
            }
        },
    }
}

/// The checks after the root's: what replaying the root found, then each
/// commit, snapshot and branch, the active branch, each redo stack, and the
/// counters.
pub open spec fn recorded_fault(p: PartsView, found: ReplayFindings) -> Option<HistoryFault> {
    let root = fault_of(found.root);
    let commits = commits_fault_from(p, found.commits@, 0);
    let snapshots = snapshots_fault_from(p, found.snapshots@, 0);
    let branches = branches_fault_from(p, 0);
    let redo = redo_fault_from(p, 0);
    if root is Some {
        root
    } else if commits is Some {
        commits
    } else if snapshots is Some {
        snapshots
    } else if branches is Some {
        branches
    } else if name_pos(p.branch_keys, p.active, 0) is None {
        invalid("active branch does not exist"@)
    } else if redo is Some {
        redo
    } else {
        counters_fault(p)
    }
}

pub(crate) fn key_index<V>(entries: &Vec<(u64, V)>, key: u64) -> (r: Option<usize>)
    ensures
        match key_pos(entries@, key, 0) {
            Some(k) => r matches Some(u) && u == k && 0 <= k < entries@.len(),
            None => r is None,
        },
{
    let mut i: usize = 0;
    while i < entries.len()
        invariant
            i <= entries@.len(),
            key_pos(entries@, key, 0) == key_pos(entries@, key, i as int),
        decreases entries@.len() - i,
    {
        if entries[i].0 == key {
            return Some(i);
        }
        i += 1;
    }
    None
}

fn branch_key_index(branches: &Vec<(String, DesignBranch)>, name: &str) -> (r: Option<usize>)
    ensures
        match name_pos(branch_keys(branches@), name@, 0) {
            Some(k) => r matches Some(u) && u == k && 0 <= k < branches@.len(),
            None => r is None,
        },
{
    let ghost keys = branch_keys(branches@);
    let mut i: usize = 0;
    while i < branches.len()
        invariant
            i <= branches@.len(),
            keys == branch_keys(branches@),
            name_pos(keys, name@, 0) == name_pos(keys, name@, i as int),
        decreases branches@.len() - i,
    {
        if str_equal(branches[i].0.as_str(), name) {
            return Some(i);
        }
        i += 1;
    }
    None
}

fn history_invalid(m: String) -> (e: HistoryError)
    ensures
        e@ == HistoryFault::InvalidHistory(m@),
{
    HistoryError::InvalidHistory(m)
}

fn history_message(t: &str) -> (e: HistoryError)
    ensures
        e@ == HistoryFault::InvalidHistory(t@),
{
    let mut m = String::new();
    push_str(&mut m, t);
    proof {
        assert(m@ =~= t@);
    }
    HistoryError::InvalidHistory(m)
}

/// `"{a}{n}{b}"`.
fn id_text(a: &str, n: u64, b: &str) -> (s: String)
    ensures
        s@ == a@ + decimal(n as nat) + b@,
{
    let mut s = String::new();
    push_str(&mut s, a);
    push_decimal(&mut s, n);
    push_str(&mut s, b);
    proof {
        assert(s@ =~= a@ + decimal(n as nat) + b@);
    }
    s
}

/// `"{a}{n}{b}{m}"`.
fn two_ids_text(a: &str, n: u64, b: &str, m: u64) -> (s: String)
    ensures
        s@ == a@ + decimal(n as nat) + b@ + decimal(m as nat),
{
    let mut s = id_text(a, n, b);
    push_decimal(&mut s, m);
    s
}

/// `"{a}{name}{b}{n}"`.
fn name_id_text(a: &str, name: &str, b: &str, n: u64) -> (s: String)
    ensures
        s@ == a@ + name@ + b@ + decimal(n as nat),
{
    let mut s = String::new();
    push_str(&mut s, a);
    push_str(&mut s, name);
    push_str(&mut s, b);
    push_decimal(&mut s, n);
    proof {
        assert(s@ =~= a@ + name@ + b@ + decimal(n as nat));
    }
    s
}

/// Takes out the finding at position `i`, if one was reported.
fn take_finding(found: &mut Vec<Option<HistoryError>>, i: usize) -> (r: Option<HistoryError>)
    ensures
        fault_of(r) == finding_at(old(found)@, i as int),
        r is None ==> final(found)@ == old(found)@,
{
    if i < found.len() && found[i].is_some() {
        found.remove(i)
    } else {
        None
    }
}

impl HistoryParts {
    fn commits_fault(&self, found: &mut Vec<Option<HistoryError>>) -> (r: Option<HistoryError>)
        ensures
            fault_of(r) == commits_fault_from(self@, old(found)@, 0),
    {
        let ghost p = self@;
        let ghost f0 = found@;
        let mut i: usize = 0;
        while i < self.commits.len()
            invariant
                p == self@,
                found@ == f0,
                f0 == old(found)@,
                i <= self.commits@.len(),
                commits_fault_from(p, f0, 0) == commits_fault_from(p, f0, i as int),
            decreases self.commits@.len() - i,
        {
            let key = self.commits[i].0;
            let node = self.commits[i].1;
            if key != 0 {
                if key != node.id {
                    return Some(
                        history_invalid(
                            two_ids_text("commit map key ", key, " does not match commit id ", node.id),
                        ),
                    );
                }
                match node.parent {
                    None => {
                        return Some(history_invalid(id_text("commit ", key, " is missing a parent")));
                    },
                    Some(q) => {
                        if q >= key {
                            return Some(
                                history_invalid(
                                    two_ids_text("commit ", key, " has a non-ancestral parent ", q),
                                ),
                            );
                        }
                        let earlier = match key_index(&self.commits, q) {
                            Some(k) => k < i,
                            None => false,
                        };
                        let replayed = q == 0 || earlier;
                        if !replayed {
                            return Some(
                                history_invalid(two_ids_text("commit ", key, " has a missing parent ", q)),
                            );
                        }
                        let e = take_finding(found, i);
                        if e.is_some() {
                            return e;
                        }
                    },
                }
            }
            i += 1;
        }
        None
    }

    fn snapshots_fault(&self, found: &mut Vec<Option<HistoryError>>) -> (r: Option<HistoryError>)
        ensures
            fault_of(r) == snapshots_fault_from(self@, old(found)@, 0),
    {
        let ghost p = self@;
        let ghost f0 = found@;
        let mut j: usize = 0;
        while j < self.snapshots.len()
            invariant
                p == self@,
                found@ == f0,
                f0 == old(found)@,
                j <= self.snapshots@.len(),
                snapshots_fault_from(p, f0, 0) == snapshots_fault_from(p, f0, j as int),
            decreases self.snapshots@.len() - j,
        {
            let key = self.snapshots[j].0;
            if key != self.snapshots[j].1 || key_index(&self.commits, key).is_none() {
                return Some(
                    history_invalid(
                        id_text("snapshot ", key, " does not reference an existing matching commit"),
                    ),
                );
            }
            let e = take_finding(found, j);
            if e.is_some() {
                return e;
            }
            j += 1;
        }
        None
    }

    fn branches_fault(&self) -> (r: Option<HistoryError>)
        ensures
            fault_of(r) == branches_fault_from(self@, 0),
    {
        let ghost p = self@;
        let mut k: usize = 0;
        while k < self.branches.len()
            invariant
                p == self@,
                k <= self.branches@.len(),
                branches_fault_from(p, 0) == branches_fault_from(p, k as int),
            decreases self.branches@.len() - k,
        {
            let key = self.branches[k].0.as_str();
            let branch = &self.branches[k].1;
            if str_is_blank(key) || !str_equal(key, branch.name.as_str()) {
                return Some(history_message("branch names must be non-empty and match their map keys"));
            }
            if key_index(&self.commits, branch.head).is_none() {
                return Some(
                    history_invalid(name_id_text("branch ", key, " points to missing commit ", branch.head)),
                );
            }
            k += 1;
        }
        None
    }

    fn redo_chain(&self, j: usize, head: CommitId) -> (r: Option<HistoryError>)
        requires
            j < self.redo@.len(),
        ensures
            fault_of(r) == redo_chain_fault(
                self@.commits,
                self@.redo[j as int].0,
                self@.redo[j as int].1,
                head,
                0,
            ),
    {
        let ghost p = self@;
        let name = self.redo[j].branch.as_str();
        let stack = &self.redo[j].commits;
        let ghost st = stack@;
        let mut parent = head;
        let mut n: usize = 0;
        while n < stack.len()
            invariant
                p == self@,
                j < p.redo.len(),
                name@ == p.redo[j as int].0,
                st == stack@,
                st == p.redo[j as int].1,
                n <= st.len(),
                redo_chain_fault(p.commits, name@, st, head, 0) == redo_chain_fault(
                    p.commits,
                    name@,
                    st,
                    parent,
                    n as int,
                ),
            decreases st.len() - n,
        {
            let c = stack[stack.len() - 1 - n];
            match key_index(&self.commits, c) {
                None => {
                    return Some(
                        history_invalid(
                            name_id_text("redo stack on branch ", name, " references missing commit ", c),
                        ),
                    );
                },
                Some(q) => {
                    let linked = match self.commits[q].1.parent {
                        Some(x) => x == parent,
                        None => false,
                    };
                    if !linked {
                        return Some(
                            history_invalid(
                                name_id_text("redo stack on branch ", name, " is not contiguous at commit ", c),
                            ),
                        );
                    }
                },
            }
            parent = c;
            n += 1;
        }
        None
    }

    fn redo_fault(&self) -> (r: Option<HistoryError>)
        ensures
            fault_of(r) == redo_fault_from(self@, 0),
    {
        let ghost p = self@;
        let mut j: usize = 0;
        while j < self.redo.len()
            invariant
                p == self@,
                j <= self.redo@.len(),
                redo_fault_from(p, 0) == redo_fault_from(p, j as int),
            decreases self.redo@.len() - j,
        {
            let name = self.redo[j].branch.as_str();
            match branch_key_index(&self.branches, name) {
                None => {
                    let mut m = String::new();
                    push_str(&mut m, "redo stack references missing branch ");
                    push_str(&mut m, name);
                    return Some(history_invalid(m));
                },
                Some(b) => {
                    let e = self.redo_chain(j, self.branches[b].1.head);
                    if e.is_some() {
                        return e;
                    }
                },
            }
            j += 1;
        }
        None
    }

    fn counters(&self) -> (r: Result<(), HistoryError>)
        ensures
            match counters_fault(self@) {
                Some(f) => r matches Err(e) && e@ == f,
                None => r is Ok,
            },
    {
        if self.snapshot_interval == 0 {
            return Err(history_message("snapshot interval must be greater than zero"));
        }
        let mut keys: Vec<CommitId> = Vec::new();
        let mut i: usize = 0;
        while i < self.commits.len()
            invariant
                i <= self.commits@.len(),
                keys@ == commit_keys(self@).take(i as int),
            decreases self.commits@.len() - i,
        {
            keys.push(self.commits[i].0);
            proof {
                assert(keys@ =~= commit_keys(self@).take(i + 1));
            }
            i += 1;
        }
        proof {
            assert(keys@ =~= commit_keys(self@));
        }
        match next_id_after("commit", keys.as_slice()) {
            Err(e) => Err(HistoryError::Command(e)),
            Ok(n) => {
                if self.next_commit_id < n {
                    Err(history_message("next commit id is behind existing history"))
                } else {
                    Ok(())
                }
            },
        }
    }

    /// Checks the stored structure in the order a history is verified: the
    /// root commit and snapshot, what replaying the root found, every other
    /// commit (key, parent, replay), every snapshot, every branch, the active
    /// branch, every redo stack, and the counters. Reports the first fault.
    pub fn validate_integrity(&self, found: ReplayFindings) -> (r: Result<(), HistoryError>)
        ensures
            match integrity_fault(self@, found) {
                Some(f) => r matches Err(e) && e@ == f,
                None => r is Ok,
            },
    {
        let ghost p = self@;
        let ReplayFindings { root, commits: mut commit_findings, snapshots: mut snapshot_findings } =
            found;
        let root_at = match key_index(&self.commits, 0) {
            None => {
                return Err(history_message("missing root commit"));
            },
            Some(k) => k,
        };
        let root_node = self.commits[root_at].1;
        if root_node.id != 0 || root_node.parent.is_some() || !self.root_plain {
            return Err(history_message("root commit must be an empty parentless transaction"));
        }
        let snapshot_at = match key_index(&self.snapshots, 0) {
            None => {
                return Err(history_message("missing root snapshot"));
            },
            Some(k) => k,
        };
        if self.snapshots[snapshot_at].1 != 0 {
            return Err(history_message("root snapshot has an invalid commit id"));
        }
        if let Some(e) = root {
            return Err(e);
        }
        if let Some(e) = self.commits_fault(&mut commit_findings) {
            return Err(e);
        }
        if let Some(e) = self.snapshots_fault(&mut snapshot_findings) {
            return Err(e);
        }
        if let Some(e) = self.branches_fault() {
            return Err(e);
        }
        if branch_key_index(&self.branches, self.active_branch.as_str()).is_none() {
            return Err(history_message("active branch does not exist"));
        }
        if let Some(e) = self.redo_fault() {
            return Err(e);
        }
        self.counters()
    }
}


/// No two commits share a key, as in the keyed table they come from.
pub open spec fn commit_keys_distinct(p: PartsView) -> bool {
    forall|i: int, j: int|
        0 <= i < j < p.commits.len() ==> #[trigger] p.commits[i].0 != #[trigger] p.commits[j].0
}

/// No two redo stacks belong to one branch, as in the keyed table they come
/// from.
pub open spec fn redo_names_distinct(rs: Seq<(Seq<char>, Seq<CommitId>)>) -> bool {
    forall|i: int, j: int| 0 <= i < j < rs.len() ==> #[trigger] rs[i].0 != #[trigger] rs[j].0
}

/// The branch table's three columns have one entry per branch.
pub open spec fn parts_shaped(p: PartsView) -> bool {
    p.branch_keys.len() == p.branch_names.len() && p.branch_keys.len() == p.branch_heads.len()
}

pub open spec fn commit_nodes(cs: Seq<(CommitId, CommitNode)>) -> Seq<CommitNode> {
    cs.map_values(|e: (CommitId, CommitNode)| e.1)
}

pub open spec fn snapshot_keys(ss: Seq<(CommitId, CommitId)>) -> Seq<CommitId> {
    ss.map_values(|e: (CommitId, CommitId)| e.0)
}

/// The redo stacks that hold commits; an empty stack redoes nothing.
pub open spec fn kept_redo(rs: Seq<(Seq<char>, Seq<CommitId>)>) -> Seq<(Seq<char>, Seq<CommitId>)> {
    rs.filter(|e: (Seq<char>, Seq<CommitId>)| e.1.len() > 0)
}

/// The commit graph a stored history describes.
pub open spec fn assembled(p: PartsView) -> HistoryState {
    HistoryState {
        commits: commit_nodes(p.commits),
        branch_names: p.branch_names,
        heads: p.branch_heads,
        active: p.active,
        redo_names: kept_redo(p.redo).map_values(|e: (Seq<char>, Seq<CommitId>)| e.0),
        redo_stacks: kept_redo(p.redo).map_values(|e: (Seq<char>, Seq<CommitId>)| e.1),
        snapshots: snapshot_keys(p.snapshots),
        interval: p.interval,
        next: p.next,
    }
}

pub proof fn lemma_commits_pass(p: PartsView, found: Seq<Option<HistoryError>>, i: int)
    requires
        0 <= i,
        commits_fault_from(p, found, i) is None,
    ensures
        forall|j: int| i <= j < p.commits.len() ==> (#[trigger] commit_entry_fault(p, found, j)) is None,
    decreases p.commits.len() - i,
{
    if i < p.commits.len() {
        lemma_commits_pass(p, found, i + 1);
    }
}

pub proof fn lemma_branches_pass(p: PartsView, k: int)
    requires
        0 <= k,
        branches_fault_from(p, k) is None,
    ensures
        forall|j: int| k <= j < p.branch_keys.len() ==> (#[trigger] branch_entry_fault(p, j)) is None,
    decreases p.branch_keys.len() - k,
{
    if k < p.branch_keys.len() {
        lemma_branches_pass(p, k + 1);
    }
}

/// Some stack of `rs` belongs to branch `name`.
pub open spec fn name_listed(rs: Seq<(Seq<char>, Seq<CommitId>)>, name: Seq<char>) -> bool {
    exists|j: int| 0 <= j < rs.len() && rs[j].0 == name
}

pub proof fn lemma_kept_redo(rs: Seq<(Seq<char>, Seq<CommitId>)>)
    requires
        redo_names_distinct(rs),
    ensures
        redo_names_distinct(kept_redo(rs)),
        forall|i: int| 0 <= i < kept_redo(rs).len() ==> (#[trigger] kept_redo(rs)[i]).1.len() > 0,
        forall|i: int| 0 <= i < kept_redo(rs).len() ==> name_listed(rs, (#[trigger] kept_redo(rs)[i]).0),
    decreases rs.len(),
{
    reveal(Seq::filter);
    if rs.len() > 0 {
        let d = rs.drop_last();
        assert(redo_names_distinct(d)) by {
            assert forall|i: int, j: int| 0 <= i < j < d.len() implies #[trigger] d[i].0 != #[trigger] d[j].0 by {
                assert(rs[i].0 != rs[j].0);
            }
        }
        lemma_kept_redo(d);
        let k = kept_redo(d);
        assert forall|i: int| 0 <= i < k.len() implies name_listed(rs, (#[trigger] k[i]).0) by {
            assert(name_listed(d, k[i].0));
            let j = choose|j: int| 0 <= j < d.len() && d[j].0 == k[i].0;
            assert(rs[j].0 == k[i].0);
        }
        let t = kept_redo(rs);
        if rs.last().1.len() > 0 {
            assert(t == k.push(rs.last()));
            assert forall|i: int, j: int| 0 <= i < j < t.len() implies #[trigger] t[i].0 != #[trigger] t[j].0 by {
                if j == t.len() - 1 {
                    assert(name_listed(d, k[i].0));
                    let q = choose|q: int| 0 <= q < d.len() && d[q].0 == k[i].0;
                    assert(rs[q].0 == t[i].0);
                    assert(rs[q].0 != rs[rs.len() - 1].0);
                } else {
                    assert(t[i] == k[i] && t[j] == k[j]);
                }
            }
            assert forall|i: int| 0 <= i < t.len() implies name_listed(rs, (#[trigger] t[i]).0) by {
                if i == t.len() - 1 {
                    assert(rs[rs.len() - 1].0 == t[i].0);
                } else {
                    assert(t[i] == k[i]);
                }
            }
        } else {
            assert(t == k);
        }
    }
}

/// A stored history that passes every integrity check describes a
/// well-formed commit graph: every commit id and branch head lies below the
/// next commit id, the active branch exists, every parent precedes its
/// child, redo stacks are non-empty and belong to distinct branches, and
/// the snapshot interval is positive.
pub proof fn law_intact_history_is_well_formed(p: PartsView, found: ReplayFindings)
    requires
        parts_shaped(p),
        commit_keys_distinct(p),
        redo_names_distinct(p.redo),
        integrity_fault(p, found) is None,
    ensures
        graph_ok(assembled(p)),
{
    let s = assembled(p);
    let r = key_pos(p.commits, 0, 0).unwrap();
    lemma_key_pos(p.commits, 0, 0);
    lemma_commits_pass(p, found.commits@, 0);
    lemma_branches_pass(p, 0);
    lemma_kept_redo(p.redo);
    let keys = commit_keys(p);
    lemma_max_id(keys);
    assert(keys[r] == 0);
    let m = max_id(keys).unwrap();
    assert(m < p.next);
    // Every commit keeps its key as id; the root is the only key-0 entry.
    assert forall|i: int| 0 <= i < p.commits.len() implies (#[trigger] p.commits[i]).1.id == p.commits[i].0
        && (p.commits[i].0 == 0 ==> i == r) by {
        if p.commits[i].0 == 0 {
            if i < r {
                assert(p.commits[i].0 != 0);
            } else if i > r {
                assert(p.commits[r].0 != p.commits[i].0);
            }
        } else {
            assert(commit_entry_fault(p, found.commits@, i) is None);
        }
    }
    assert forall|i: int| 0 <= i < s.commits.len() implies (#[trigger] s.commits[i]).id < s.next by {
        assert(s.commits[i] == p.commits[i].1);
        assert(keys[i] == p.commits[i].0);
    }
    assert forall|k: int| 0 <= k < s.heads.len() implies #[trigger] s.heads[k] < s.next by {
        assert(branch_entry_fault(p, k) is None);
        lemma_key_pos(p.commits, p.branch_heads[k], 0);
        let q = key_pos(p.commits, p.branch_heads[k], 0).unwrap();
        assert(keys[q] == p.branch_heads[k]);
    }
    assert(parents_precede(s)) by {
        assert forall|i: int| 0 <= i < s.commits.len() implies match (#[trigger] s.commits[i]).parent {
            Some(q) => q < s.commits[i].id,
            None => true,
        } by {
            assert(s.commits[i] == p.commits[i].1);
            if p.commits[i].0 != 0 {
                assert(commit_entry_fault(p, found.commits@, i) is None);
            }
        }
    }
    assert(p.branch_keys =~= p.branch_names) by {
        assert forall|k: int| 0 <= k < p.branch_keys.len() implies p.branch_keys[k] == p.branch_names[k] by {
            assert(branch_entry_fault(p, k) is None);
        }
    }
    assert(branch_head(s, s.active) is Some);
    assert(s.redo_names.no_duplicates()) by {
        let k = kept_redo(p.redo);
        assert forall|i: int, j: int| 0 <= i < s.redo_names.len() && 0 <= j < s.redo_names.len() && i != j implies s.redo_names[i] != s.redo_names[j] by {
            if i < j {
                assert(k[i].0 != k[j].0);
            } else {
                assert(k[j].0 != k[i].0);
            }
        }
    }
    assert forall|k: int| 0 <= k < s.redo_stacks.len() implies (#[trigger] s.redo_stacks[k]).len() > 0 by {
        assert(kept_redo(p.redo)[k].1.len() > 0);
    }
}

} // verus!
