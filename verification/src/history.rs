//! Semantic history: comparisons between restored versions, branches, and
//! the commit graph that undo and redo move along.

use vstd::prelude::*;

use crate::document::{CommandError, CommandFault, Layer};
use crate::integrity::{
    assembled, commit_keys_distinct, commit_nodes, integrity_fault, kept_redo,
    law_intact_history_is_well_formed, parts_shaped, redo_names_distinct, snapshot_keys, HistoryParts,
    ReplayFindings,
};
use crate::text::{decimal, is_blank, law_decimal_reads_zero, push_decimal, push_decimal_wide, push_str, str_equal, str_is_blank};
use crate::{CommitId, ConstraintId, EntityId, LayerId, ParameterId, INITIAL_SNAPSHOT_INTERVAL};

verus! {

/// Values whose content can be compared.
pub trait SameContent: Sized {
    spec fn same(&self, other: &Self) -> bool;

    fn same_content(&self, other: &Self) -> (r: bool)
        ensures
            r == self.same(other),
    ;
}

impl SameContent for u64 {
    open spec fn same(&self, other: &Self) -> bool {
        *self == *other
    }

    fn same_content(&self, other: &Self) -> (r: bool) {
        *self == *other
    }
}

impl SameContent for Layer {
    open spec fn same(&self, other: &Self) -> bool {
        &&& self.id == other.id
        &&& self.name@ == other.name@
        &&& self.visible == other.visible
        &&& self.locked == other.locked
        &&& self.color@ == other.color@
    }

    fn same_content(&self, other: &Self) -> (r: bool) {
        let r = self.id == other.id && str_equal(self.name.as_str(), other.name.as_str())
            && self.visible == other.visible && self.locked == other.locked && self.color[0]
            == other.color[0] && self.color[1] == other.color[1] && self.color[2]
            == other.color[2] && self.color[3] == other.color[3];
        proof {
            if self.color[0] == other.color[0] && self.color[1] == other.color[1] && self.color[2]
                == other.color[2] && self.color[3] == other.color[3] {
                assert(self.color@ =~= other.color@);
            }
        }
        r
    }
}

/// Entries keyed by strictly increasing ids: a map in key order.
pub open spec fn keys_increasing<T>(m: Seq<(u64, T)>) -> bool {
    forall|i: int, j: int| 0 <= i < j < m.len() ==> m[i].0 < m[j].0
}

pub open spec fn has_key<T>(m: Seq<(u64, T)>, k: u64) -> bool {
    exists|i: int| 0 <= i < m.len() && #[trigger] m[i].0 == k
}

/// The value stored under `k`.
pub open spec fn value_at<T>(m: Seq<(u64, T)>, k: u64) -> T {
    m[choose|i: int| 0 <= i < m.len() && m[i].0 == k].1
}

/// Keys of `m`, in order, that `other` lacks.
pub open spec fn keys_missing<T>(m: Seq<(u64, T)>, other: Seq<(u64, T)>) -> Seq<u64>
    decreases m.len(),
{
    if m.len() == 0 {
        Seq::empty()
    } else if has_key(other, m.last().0) {
        keys_missing(m.drop_last(), other)
    } else {
        keys_missing(m.drop_last(), other).push(m.last().0)
    }
}

/// Keys of `base`, in order, whose value `target` holds with other content.
pub open spec fn keys_changed<T: SameContent>(base: Seq<(u64, T)>, target: Seq<(u64, T)>) -> Seq<
    u64,
>
    decreases base.len(),
{
    if base.len() == 0 {
        Seq::empty()
    } else if has_key(target, base.last().0) && !value_at(target, base.last().0).same(
        &base.last().1,
    ) {
        keys_changed(base.drop_last(), target).push(base.last().0)
    } else {
        keys_changed(base.drop_last(), target)
    }
}

fn key_position<T>(m: &[(u64, T)], k: u64) -> (r: Option<usize>)
    ensures
        r matches Some(i) ==> i < m@.len() && m@[i as int].0 == k,
        r is None ==> !has_key(m@, k),
{
    let mut i: usize = 0;
    while i < m.len()
        invariant
            i <= m@.len(),
            forall|j: int| 0 <= j < i ==> m@[j].0 != k,
        decreases m@.len() - i,
    {
        if m[i].0 == k {
            return Some(i);
        }
        i += 1;
    }
    None
}

fn missing_keys<T>(m: &[(u64, T)], other: &[(u64, T)]) -> (v: Vec<u64>)
    ensures
        v@ == keys_missing(m@, other@),
{
    let mut v: Vec<u64> = Vec::new();
    let mut i: usize = 0;
    proof {
        assert(m@.take(0) =~= Seq::<(u64, T)>::empty());
    }
    while i < m.len()
        invariant
            i <= m@.len(),
            v@ == keys_missing(m@.take(i as int), other@),
        decreases m@.len() - i,
    {
        proof {
            assert(m@.take(i + 1).drop_last() =~= m@.take(i as int));
            assert(m@.take(i + 1).last() == m@[i as int]);
        }
        if key_position(other, m[i].0).is_none() {
            v.push(m[i].0);
        }
        i += 1;
    }
    proof {
        assert(m@.take(m@.len() as int) =~= m@);
    }
    v
}

/// Added, removed and modified keys between two maps held in key order:
/// keys only `target` has, keys only `base` has, and keys whose content differs.
pub fn compare_maps<T: SameContent>(base: &[(u64, T)], target: &[(u64, T)]) -> (r: (
    Vec<u64>,
    Vec<u64>,
    Vec<u64>,
))
    requires
        keys_increasing(base@),
        keys_increasing(target@),
    ensures
        r.0@ == keys_missing(target@, base@),
        r.1@ == keys_missing(base@, target@),
        r.2@ == keys_changed(base@, target@),
{
    let added = missing_keys(target, base);
    let removed = missing_keys(base, target);
    let mut modified: Vec<u64> = Vec::new();
    let mut i: usize = 0;
    proof {
        assert(base@.take(0) =~= Seq::<(u64, T)>::empty());
    }
    while i < base.len()
        invariant
            i <= base@.len(),
            keys_increasing(target@),
            modified@ == keys_changed(base@.take(i as int), target@),
        decreases base@.len() - i,
    {
        proof {
            assert(base@.take(i + 1).drop_last() =~= base@.take(i as int));
            assert(base@.take(i + 1).last() == base@[i as int]);
        }
        match key_position(target, base[i].0) {
            None => {},
            Some(j) => {
                proof {
                    let c = choose|c: int| 0 <= c < target@.len() && target@[c].0 == base@[i as int].0;
                    if c != j {
                        if c < j {
                            assert(target@[c].0 < target@[j as int].0);
                        } else {
                            assert(target@[j as int].0 < target@[c].0);
                        }
                    }
                }
                if !target[j].1.same_content(&base[i].1) {
                    modified.push(base[i].0);
                }
            },
        }
        i += 1;
    }
    proof {
        assert(base@.take(base@.len() as int) =~= base@);
    }
    (added, removed, modified)
}

/// A deterministic comparison between two restored document versions.
pub struct HistoryComparison {
    pub base_commit: CommitId,
    pub target_commit: CommitId,
    pub added_entities: Vec<EntityId>,
    pub removed_entities: Vec<EntityId>,
    pub modified_entities: Vec<EntityId>,
    pub added_layers: Vec<LayerId>,
    pub removed_layers: Vec<LayerId>,
    pub modified_layers: Vec<LayerId>,
    pub added_parameters: Vec<ParameterId>,
    pub removed_parameters: Vec<ParameterId>,
    pub modified_parameters: Vec<ParameterId>,
    pub added_constraints: Vec<ConstraintId>,
    pub removed_constraints: Vec<ConstraintId>,
    pub modified_constraints: Vec<ConstraintId>,
    pub metadata_changed: bool,
    pub units_changed: bool,
}

impl HistoryComparison {
    pub open spec fn additions(&self) -> nat {
        self.added_entities@.len() + self.added_layers@.len() + self.added_parameters@.len()
            + self.added_constraints@.len()
    }

    pub open spec fn removals(&self) -> nat {
        self.removed_entities@.len() + self.removed_layers@.len() + self.removed_parameters@.len()
            + self.removed_constraints@.len()
    }

    pub open spec fn modifications(&self) -> nat {
        self.modified_entities@.len() + self.modified_layers@.len()
            + self.modified_parameters@.len() + self.modified_constraints@.len() + (
        if self.metadata_changed {
            1nat
        } else {
            0nat
        }) + (if self.units_changed {
            1nat
        } else {
            0nat
        })
    }

    /// Nothing differs between the two versions.
    pub fn is_empty(&self) -> (r: bool)
        ensures
            r == (self.additions() == 0 && self.removals() == 0 && self.modifications() == 0),
    {
        self.added_entities.len() == 0 && self.removed_entities.len() == 0
            && self.modified_entities.len() == 0 && self.added_layers.len() == 0
            && self.removed_layers.len() == 0 && self.modified_layers.len() == 0
            && self.added_parameters.len() == 0 && self.removed_parameters.len() == 0
            && self.modified_parameters.len() == 0 && self.added_constraints.len() == 0
            && self.removed_constraints.len() == 0 && self.modified_constraints.len() == 0
            && !self.metadata_changed && !self.units_changed
    }

    /// `"{a} added, {r} removed, {m} modified"`.
    pub fn summary(&self) -> (s: String)
        ensures
            s@ == decimal(self.additions()) + " added, "@ + decimal(self.removals())
                + " removed, "@ + decimal(self.modifications()) + " modified"@,
    {
        let additions: u128 = self.added_entities.len() as u128 + self.added_layers.len() as u128
            + self.added_parameters.len() as u128 + self.added_constraints.len() as u128;
        let removals: u128 = self.removed_entities.len() as u128
            + self.removed_layers.len() as u128 + self.removed_parameters.len() as u128
            + self.removed_constraints.len() as u128;
        let modifications: u128 = self.modified_entities.len() as u128
            + self.modified_layers.len() as u128 + self.modified_parameters.len() as u128
            + self.modified_constraints.len() as u128 + if self.metadata_changed {
            1u128
        } else {
            0u128
        } + if self.units_changed {
            1u128
        } else {
            0u128
        };
        let mut s = String::new();
        push_decimal_wide(&mut s, additions);
        push_str(&mut s, " added, ");
        push_decimal_wide(&mut s, removals);
        push_str(&mut s, " removed, ");
        push_decimal_wide(&mut s, modifications);
        push_str(&mut s, " modified");
        proof {
            assert(s@ =~= decimal(self.additions()) + " added, "@ + decimal(self.removals())
                + " removed, "@ + decimal(self.modifications()) + " modified"@);
        }
        s
    }
}

/// Commits between persisted snapshots in a new history.
pub fn default_snapshot_interval() -> (n: CommitId)
    ensures
        n == INITIAL_SNAPSHOT_INTERVAL,
{
    INITIAL_SNAPSHOT_INTERVAL
}

/// The id the first commit after the root gets.
pub fn default_next_commit_id() -> (n: CommitId)
    ensures
        n == 1,
{
    1
}

/// A named line of development and the commit it points at.
pub struct DesignBranch {
    pub name: String,
    pub head: CommitId,
}

pub enum HistoryError {
    Command(CommandError),
    CommitMissing(CommitId),
    BranchExists(String),
    BranchMissing(String),
    InvalidBranchName,
    NothingToUndo,
    NothingToRedo,
    CandidateValidationUnavailable(String),
    CandidateValidationFailed(String),
    InvalidHistory(String),
}

/// What a history error reports, as plain values.
pub enum HistoryFault {
    /// A command of the history's log failed.
    Command(CommandFault),
    CommitMissing(CommitId),
    BranchExists(Seq<char>),
    BranchMissing(Seq<char>),
    InvalidBranchName,
    NothingToUndo,
    NothingToRedo,
    CandidateValidationUnavailable(Seq<char>),
    CandidateValidationFailed(Seq<char>),
    InvalidHistory(Seq<char>),
}

impl View for HistoryError {
    type V = HistoryFault;

    open spec fn view(&self) -> HistoryFault {
        match self {
            HistoryError::Command(e) => HistoryFault::Command(e@),
            HistoryError::CommitMissing(id) => HistoryFault::CommitMissing(*id),
            HistoryError::BranchExists(n) => HistoryFault::BranchExists(n@),
            HistoryError::BranchMissing(n) => HistoryFault::BranchMissing(n@),
            HistoryError::InvalidBranchName => HistoryFault::InvalidBranchName,
            HistoryError::NothingToUndo => HistoryFault::NothingToUndo,
            HistoryError::NothingToRedo => HistoryFault::NothingToRedo,
            HistoryError::CandidateValidationUnavailable(m) =>
                HistoryFault::CandidateValidationUnavailable(m@),
            HistoryError::CandidateValidationFailed(m) => HistoryFault::CandidateValidationFailed(
                m@,
            ),
            HistoryError::InvalidHistory(m) => HistoryFault::InvalidHistory(m@),
        }
    }
}

pub open spec fn history_view<T>(r: Result<T, HistoryError>) -> Result<T, HistoryFault> {
    match r {
        Ok(v) => Ok(v),
        Err(e) => Err(e@),
    }
}

/// A commit's place in the history: its id and its parent (none for the root).
#[derive(Clone, Copy, Debug, PartialEq, Eq, Structural)]
pub struct CommitNode {
    pub id: CommitId,
    pub parent: Option<CommitId>,
}

/// The commit structure of a history, as plain values.
pub struct HistoryState {
    pub commits: Seq<CommitNode>,
    pub branch_names: Seq<Seq<char>>,
    pub heads: Seq<CommitId>,
    pub active: Seq<char>,
    pub redo_names: Seq<Seq<char>>,
    pub redo_stacks: Seq<Seq<CommitId>>,
    pub snapshots: Seq<CommitId>,
    pub interval: CommitId,
    pub next: CommitId,
}

/// The first position, from `i` on, of a commit with id `id`.
pub open spec fn commit_pos(commits: Seq<CommitNode>, id: CommitId, i: int) -> Option<int>
    decreases commits.len() - i,
{
    if i < 0 || i >= commits.len() {
        None
    } else if commits[i].id == id {
        Some(i)
    } else {
        commit_pos(commits, id, i + 1)
    }
}

/// The first position, from `i` on, of `name`.
pub open spec fn name_pos(names: Seq<Seq<char>>, name: Seq<char>, i: int) -> Option<int>
    decreases names.len() - i,
{
    if i < 0 || i >= names.len() {
        None
    } else if names[i] == name {
        Some(i)
    } else {
        name_pos(names, name, i + 1)
    }
}

pub proof fn lemma_commit_pos(commits: Seq<CommitNode>, id: CommitId, i: int)
    requires
        0 <= i,
    ensures
        commit_pos(commits, id, i) matches Some(k) ==> i <= k < commits.len() && commits[k].id == id,
        commit_pos(commits, id, i) is None ==> forall|k: int|
            i <= k < commits.len() ==> commits[k].id != id,
    decreases commits.len() - i,
{
    if i < commits.len() && commits[i].id != id {
        lemma_commit_pos(commits, id, i + 1);
    }
}

pub proof fn lemma_name_pos(names: Seq<Seq<char>>, name: Seq<char>, i: int)
    requires
        0 <= i,
    ensures
        name_pos(names, name, i) matches Some(k) ==> i <= k < names.len() && names[k] == name,
        name_pos(names, name, i) is None ==> forall|k: int| i <= k < names.len() ==> names[k] != name,
    decreases names.len() - i,
{
    if i < names.len() && names[i] != name {
        lemma_name_pos(names, name, i + 1);
    }
}

/// A name absent from `names` is found at the end once appended.
pub proof fn lemma_name_pos_push(names: Seq<Seq<char>>, name: Seq<char>, i: int)
    requires
        0 <= i <= names.len(),
        name_pos(names, name, i) is None,
    ensures
        name_pos(names.push(name), name, i) == Some(names.len() as int),
    decreases names.len() - i,
{
    if i < names.len() {
        lemma_name_pos_push(names, name, i + 1);
    }
}

/// Appending a name keeps where the names already there are found.
pub proof fn lemma_name_pos_push_keep(names: Seq<Seq<char>>, x: Seq<char>, name: Seq<char>, i: int)
    requires
        0 <= i,
        name_pos(names, name, i) is Some,
    ensures
        name_pos(names.push(x), name, i) == name_pos(names, name, i),
    decreases names.len() - i,
{
    if i < names.len() && names[i] != name {
        lemma_name_pos_push_keep(names, x, name, i + 1);
    }
}

/// The parent entry of commit `id`: `None` when there is no such commit.
pub open spec fn parent_of(s: HistoryState, id: CommitId) -> Option<Option<CommitId>> {
    match commit_pos(s.commits, id, 0) {
        Some(k) => Some(s.commits[k].parent),
        None => None,
    }
}

pub open spec fn branch_head(s: HistoryState, name: Seq<char>) -> Option<CommitId> {
    match name_pos(s.branch_names, name, 0) {
        Some(k) => Some(s.heads[k]),
        None => None,
    }
}

/// The commits that can be redone on branch `name`, the next one last.
pub open spec fn redo_of(s: HistoryState, name: Seq<char>) -> Seq<CommitId> {
    match name_pos(s.redo_names, name, 0) {
        Some(k) => s.redo_stacks[k],
        None => Seq::empty(),
    }
}

/// The shape every history keeps: equally many names and heads and redo
/// entries, an existing active branch, and commit ids below the next id.
pub open spec fn history_wf(s: HistoryState) -> bool {
    &&& s.branch_names.len() == s.heads.len()
    &&& s.redo_names.len() == s.redo_stacks.len()
    &&& branch_head(s, s.active) is Some
    &&& forall|i: int| 0 <= i < s.commits.len() ==> (#[trigger] s.commits[i]).id < s.next
    &&& forall|k: int| 0 <= k < s.heads.len() ==> #[trigger] s.heads[k] < s.next
    &&& forall|k: int| 0 <= k < s.redo_stacks.len() ==> (#[trigger] s.redo_stacks[k]).len() > 0
    &&& s.redo_names.no_duplicates()
}

pub open spec fn head_of(s: HistoryState) -> CommitId {
    branch_head(s, s.active).unwrap()
}

/// Moves the active branch to `h`.
pub open spec fn with_head(s: HistoryState, h: CommitId) -> HistoryState {
    let k = name_pos(s.branch_names, s.active, 0).unwrap();
    HistoryState { heads: s.heads.update(k, h), ..s }
}

/// Pushes `c` on the active branch's redo stack, creating it if needed.
pub open spec fn with_redo_pushed(s: HistoryState, c: CommitId) -> HistoryState {
    match name_pos(s.redo_names, s.active, 0) {
        Some(k) => HistoryState { redo_stacks: s.redo_stacks.update(k, s.redo_stacks[k].push(c)), ..s },
        None => HistoryState {
            redo_names: s.redo_names.push(s.active),
            redo_stacks: s.redo_stacks.push(seq![c]),
            ..s
        },
    }
}

/// Pops the active branch's redo stack, dropping it when it empties.
pub open spec fn with_redo_popped(s: HistoryState) -> HistoryState {
    match name_pos(s.redo_names, s.active, 0) {
        Some(k) => if s.redo_stacks[k].len() <= 1 {
            HistoryState {
                redo_names: s.redo_names.remove(k),
                redo_stacks: s.redo_stacks.remove(k),
                ..s
            }
        } else {
            HistoryState { redo_stacks: s.redo_stacks.update(k, s.redo_stacks[k].drop_last()), ..s }
        },
        None => s,
    }
}

/// Drops the active branch's redo stack.
pub open spec fn without_redo(s: HistoryState) -> HistoryState {
    match name_pos(s.redo_names, s.active, 0) {
        Some(k) => HistoryState {
            redo_names: s.redo_names.remove(k),
            redo_stacks: s.redo_stacks.remove(k),
            ..s
        },
        None => s,
    }
}

/// What `undo` does: the active branch moves to its head's parent and the
/// old head goes on the branch's redo stack.
pub open spec fn undo_outcome(s: HistoryState) -> (HistoryState, Result<CommitId, HistoryFault>) {
    let h = head_of(s);
    match parent_of(s, h) {
        None => (s, Err(HistoryFault::CommitMissing(h))),
        Some(None) => (s, Err(HistoryFault::NothingToUndo)),
        Some(Some(p)) => (with_redo_pushed(with_head(s, p), h), Ok(p)),
    }
}

pub open spec fn redo_mismatch_message(c: CommitId, h: CommitId) -> Seq<char> {
    "redo commit "@ + decimal(c as nat) + " does not follow active head "@ + decimal(h as nat)
}

/// What `redo` does: the most recently undone commit becomes the head again.
pub open spec fn redo_outcome(s: HistoryState) -> (HistoryState, Result<CommitId, HistoryFault>) {
    let h = head_of(s);
    let stack = redo_of(s, s.active);
    if stack.len() == 0 {
        (s, Err(HistoryFault::NothingToRedo))
    } else {
        let c = stack.last();
        match parent_of(s, c) {
            None => (s, Err(HistoryFault::CommitMissing(c))),
            Some(p) => if p != Some(h) {
                (s, Err(HistoryFault::InvalidHistory(redo_mismatch_message(c, h))))
            } else {
                (with_redo_popped(with_head(s, c)), Ok(c))
            },
        }
    }
}

/// What recording a commit on the active branch does to the structure.
pub open spec fn record_outcome(s: HistoryState) -> (HistoryState, Result<CommitId, HistoryFault>) {
    if s.next == u64::MAX {
        (s, Err(HistoryFault::InvalidHistory("commit id space is exhausted"@)))
    } else {
        let id = s.next;
        let t = without_redo(
            with_head(
                HistoryState {
                    commits: s.commits.push(CommitNode { id, parent: Some(head_of(s)) }),
                    next: (s.next + 1) as u64,
                    ..s
                },
                id,
            ),
        );
        (
            if id % s.interval == 0 {
                HistoryState { snapshots: t.snapshots.push(id), ..t }
            } else {
                t
            },
            Ok(id),
        )
    }
}

/// What `create_branch` does.
pub open spec fn create_branch_outcome(s: HistoryState, name: Seq<char>, from: CommitId) -> (
    HistoryState,
    Result<(), HistoryFault>,
) {
    if is_blank(name) {
        (s, Err(HistoryFault::InvalidBranchName))
    } else if branch_head(s, name) is Some {
        (s, Err(HistoryFault::BranchExists(name)))
    } else if parent_of(s, from) is None {
        (s, Err(HistoryFault::CommitMissing(from)))
    } else {
        (
            HistoryState {
                branch_names: s.branch_names.push(name),
                heads: s.heads.push(from),
                ..s
            },
            Ok(()),
        )
    }
}

/// Whether `a` is `c` or one of its ancestors; commits missing on the way are reported.
pub open spec fn ancestry(s: HistoryState, a: CommitId, c: CommitId) -> Result<bool, HistoryFault>
    decreases c,
{
    if c == a {
        Ok(true)
    } else {
        match parent_of(s, c) {
            None => Err(HistoryFault::CommitMissing(c)),
            Some(None) => Ok(false),
            Some(Some(p)) => if p < c {
                ancestry(s, a, p)
            } else {
                Err(HistoryFault::InvalidHistory("commit ancestry contains a cycle"@))
            },
        }
    }
}

/// Every commit but the root has an earlier commit as parent.
pub open spec fn parents_precede(s: HistoryState) -> bool {
    forall|i: int|
        0 <= i < s.commits.len() ==> match (#[trigger] s.commits[i]).parent {
            Some(p) => p < s.commits[i].id,
            None => true,
        }
}

/// The commits that can be redone on one branch, the next one last.
pub struct RedoEntry {
    pub branch: String,
    pub commits: Vec<CommitId>,
}

/// The shape every commit graph keeps.
pub open spec fn graph_ok(s: HistoryState) -> bool {
    &&& history_wf(s)
    &&& s.interval > 0
    &&& parents_precede(s)
}

pub proof fn lemma_with_head_ok(s: HistoryState, h: CommitId)
    requires
        graph_ok(s),
        h < s.next,
    ensures
        graph_ok(with_head(s, h)),
        with_head(s, h).branch_names == s.branch_names,
        head_of(with_head(s, h)) == h,
{
    lemma_name_pos(s.branch_names, s.active, 0);
    let t = with_head(s, h);
    assert forall|k: int| 0 <= k < t.heads.len() implies #[trigger] t.heads[k] < t.next by {
        assert(s.heads.len() == t.heads.len());
    }
}

pub proof fn lemma_redo_ok(s: HistoryState, c: CommitId)
    requires
        graph_ok(s),
    ensures
        graph_ok(with_redo_pushed(s, c)),
        graph_ok(with_redo_popped(s)),
        graph_ok(without_redo(s)),
{
    lemma_name_pos(s.redo_names, s.active, 0);
    let a = with_redo_pushed(s, c);
    assert(a.redo_names.no_duplicates()) by {
        if name_pos(s.redo_names, s.active, 0) is None {
            assert forall|x: int, y: int|
                0 <= x < a.redo_names.len() && 0 <= y < a.redo_names.len() && x != y implies a.redo_names[x]
                != a.redo_names[y] by {
                if x == s.redo_names.len() {
                    assert(s.redo_names[y] != s.active);
                } else if y == s.redo_names.len() {
                    assert(s.redo_names[x] != s.active);
                }
            }
        }
    }
    assert forall|k: int| 0 <= k < a.redo_stacks.len() implies (#[trigger] a.redo_stacks[k]).len()
        > 0 by {
        if k < s.redo_stacks.len() {
            assert(s.redo_stacks[k].len() > 0);
        }
    }
    let b = with_redo_popped(s);
    assert(b.redo_names.no_duplicates()) by {
        if let Some(j) = name_pos(s.redo_names, s.active, 0) {
            if s.redo_stacks[j].len() <= 1 {
                assert forall|x: int, y: int|
                    0 <= x < b.redo_names.len() && 0 <= y < b.redo_names.len() && x != y implies b.redo_names[x]
                    != b.redo_names[y] by {
                    let x1 = if x < j { x } else { x + 1 };
                    let y1 = if y < j { y } else { y + 1 };
                    assert(b.redo_names[x] == s.redo_names[x1]);
                    assert(b.redo_names[y] == s.redo_names[y1]);
                }
            }
        }
    }
    assert forall|k: int| 0 <= k < b.redo_stacks.len() implies (#[trigger] b.redo_stacks[k]).len()
        > 0 by {
        if let Some(j) = name_pos(s.redo_names, s.active, 0) {
            if s.redo_stacks[j].len() <= 1 {
                if k < j {
                    assert(b.redo_stacks[k] == s.redo_stacks[k]);
                } else {
                    assert(b.redo_stacks[k] == s.redo_stacks[k + 1]);
                }
            } else if k != j {
                assert(b.redo_stacks[k] == s.redo_stacks[k]);
            }
        }
    }
    let d = without_redo(s);
    assert(d.redo_names.no_duplicates()) by {
        if let Some(j) = name_pos(s.redo_names, s.active, 0) {
            assert forall|x: int, y: int|
                0 <= x < d.redo_names.len() && 0 <= y < d.redo_names.len() && x != y implies d.redo_names[x]
                != d.redo_names[y] by {
                let x1 = if x < j { x } else { x + 1 };
                let y1 = if y < j { y } else { y + 1 };
                assert(d.redo_names[x] == s.redo_names[x1]);
                assert(d.redo_names[y] == s.redo_names[y1]);
            }
        }
    }
    assert forall|k: int| 0 <= k < d.redo_stacks.len() implies (#[trigger] d.redo_stacks[k]).len()
        > 0 by {
        if let Some(j) = name_pos(s.redo_names, s.active, 0) {
            if k < j {
                assert(d.redo_stacks[k] == s.redo_stacks[k]);
            } else {
                assert(d.redo_stacks[k] == s.redo_stacks[k + 1]);
            }
        }
    }
}

/// The fields of a commit graph: commits and their parents, branches
/// with their heads, the active branch, per-branch redo stacks and the commits
/// that carry snapshots.
struct GraphBody {
    commits: Vec<CommitNode>,
    branches: Vec<DesignBranch>,
    active_branch: String,
    redo: Vec<RedoEntry>,
    snapshots: Vec<CommitId>,
    snapshot_interval: CommitId,
    next_commit_id: CommitId,
}

impl View for GraphBody {
    type V = HistoryState;

    closed spec fn view(&self) -> HistoryState {
        HistoryState {
            commits: self.commits@,
            branch_names: self.branches@.map_values(|b: DesignBranch| b.name@),
            heads: self.branches@.map_values(|b: DesignBranch| b.head),
            active: self.active_branch@,
            redo_names: self.redo@.map_values(|e: RedoEntry| e.branch@),
            redo_stacks: self.redo@.map_values(|e: RedoEntry| e.commits@),
            snapshots: self.snapshots@,
            interval: self.snapshot_interval,
            next: self.next_commit_id,
        }
    }
}

impl GraphBody {
    /// A history whose root commit 0 is the head of branch `main`.
    fn new() -> (g: Self)
        ensures
            g@.commits == seq![CommitNode { id: 0, parent: None }],
            g@.branch_names == seq!["main"@],
            g@.heads == seq![0u64],
            g@.active == "main"@,
            g@.redo_names.len() == 0,
            g@.snapshots == seq![0u64],
            g@.interval == INITIAL_SNAPSHOT_INTERVAL,
            g@.next == 1,
            graph_ok(g@),
    {
        let mut commits: Vec<CommitNode> = Vec::new();
        commits.push(CommitNode { id: 0, parent: None });
        let mut branches: Vec<DesignBranch> = Vec::new();
        branches.push(DesignBranch { name: "main".to_owned(), head: 0 });
        let mut snapshots: Vec<CommitId> = Vec::new();
        snapshots.push(0);
        let g = GraphBody {
            commits,
            branches,
            active_branch: "main".to_owned(),
            redo: Vec::new(),
            snapshots,
            snapshot_interval: INITIAL_SNAPSHOT_INTERVAL,
            next_commit_id: 1,
        };
        proof {
            assert(g@.branch_names =~= seq!["main"@]);
            assert(g@.heads =~= seq![0u64]);
            assert(g@.redo_names =~= Seq::<Seq<char>>::empty());
            assert(g@.redo_stacks =~= Seq::<Seq<CommitId>>::empty());
            assert(name_pos(g@.branch_names, g@.active, 0) == Some(0int));
        }
        g
    }

    fn commit_index(&self, id: CommitId) -> (r: Option<usize>)
        ensures
            r matches Some(k) ==> commit_pos(self@.commits, id, 0) == Some(k as int) && k
                < self@.commits.len(),
            r is None ==> commit_pos(self@.commits, id, 0) is None,
    {
        let mut i: usize = 0;
        while i < self.commits.len()
            invariant
                i <= self@.commits.len(),
                commit_pos(self@.commits, id, 0) == commit_pos(self@.commits, id, i as int),
            decreases self@.commits.len() - i,
        {
            if self.commits[i].id == id {
                return Some(i);
            }
            i += 1;
        }
        None
    }

    fn branch_index(&self, name: &str) -> (r: Option<usize>)
        ensures
            r matches Some(k) ==> name_pos(self@.branch_names, name@, 0) == Some(k as int) && k
                < self@.branch_names.len(),
            r is None ==> name_pos(self@.branch_names, name@, 0) is None,
    {
        let mut i: usize = 0;
        while i < self.branches.len()
            invariant
                i <= self@.branch_names.len() == self.branches@.len(),
                self@.branch_names == self.branches@.map_values(|b: DesignBranch| b.name@),
                name_pos(self@.branch_names, name@, 0) == name_pos(
                    self@.branch_names,
                    name@,
                    i as int,
                ),
            decreases self@.branch_names.len() - i,
        {
            if str_equal(self.branches[i].name.as_str(), name) {
                return Some(i);
            }
            i += 1;
        }
        None
    }

    fn redo_index(&self, name: &str) -> (r: Option<usize>)
        ensures
            r matches Some(k) ==> name_pos(self@.redo_names, name@, 0) == Some(k as int) && k
                < self@.redo_names.len(),
            r is None ==> name_pos(self@.redo_names, name@, 0) is None,
    {
        let mut i: usize = 0;
        while i < self.redo.len()
            invariant
                i <= self@.redo_names.len() == self.redo@.len(),
                self@.redo_names == self.redo@.map_values(|e: RedoEntry| e.branch@),
                name_pos(self@.redo_names, name@, 0) == name_pos(
                    self@.redo_names,
                    name@,
                    i as int,
                ),
            decreases self@.redo_names.len() - i,
        {
            if str_equal(self.redo[i].branch.as_str(), name) {
                return Some(i);
            }
            i += 1;
        }
        None
    }

    /// The head of the active branch.
    fn head(&self) -> (h: CommitId)
        requires
            graph_ok(self@),
        ensures
            h == head_of(self@),
    {
        let k = match self.branch_index(self.active_branch.as_str()) {
            Some(k) => k,
            None => {
                proof {
                    assert(false);
                }
                0
            },
        };
        self.branches[k].head
    }

    /// The name of the active branch.
    fn active_branch(&self) -> (n: &str)
        ensures
            n@ == self@.active,
    {
        self.active_branch.as_str()
    }

    /// The head of branch `name`, if there is such a branch.
    fn branch_head(&self, name: &str) -> (r: Option<CommitId>)
        ensures
            r == branch_head(self@, name@),
    {
        match self.branch_index(name) {
            Some(k) => Some(self.branches[k].head),
            None => None,
        }
    }

    /// The parent of commit `id`: `None` without such a commit.
    fn parent(&self, id: CommitId) -> (r: Option<Option<CommitId>>)
        ensures
            r == parent_of(self@, id),
    {
        match self.commit_index(id) {
            Some(k) => Some(self.commits[k].parent),
            None => None,
        }
    }

    fn set_active_head(&mut self, h: CommitId)
        requires
            graph_ok(old(self)@),
        ensures
            final(self)@ == with_head(old(self)@, h),
    {
        let k = match self.branch_index(self.active_branch.as_str()) {
            Some(k) => k,
            None => {
                proof {
                    assert(false);
                }
                return;
            },
        };
        let name = self.branches[k].name.clone();
        let ghost before = self.branches@;
        self.branches.set(k, DesignBranch { name, head: h });
        proof {
            assert(self@.branch_names =~= old(self)@.branch_names);
            assert(self@.heads =~= old(self)@.heads.update(k as int, h));
            assert(self@ == with_head(old(self)@, h));
        }
    }

    fn push_redo(&mut self, c: CommitId)
        ensures
            final(self)@ == with_redo_pushed(old(self)@, c),
    {
        match self.redo_index(self.active_branch.as_str()) {
            Some(k) => {
                let mut e = self.redo.remove(k);
                e.commits.push(c);
                self.redo.insert(k, e);
                proof {
                    assert(self@.redo_names =~= old(self)@.redo_names);
                    assert(self@.redo_stacks =~= old(self)@.redo_stacks.update(
                        k as int,
                        old(self)@.redo_stacks[k as int].push(c),
                    ));
                }
            },
            None => {
                let name = self.active_branch.clone();
                let mut commits: Vec<CommitId> = Vec::new();
                commits.push(c);
                self.redo.push(RedoEntry { branch: name, commits });
                proof {
                    assert(self@.redo_names =~= old(self)@.redo_names.push(old(self)@.active));
                    assert(self@.redo_stacks =~= old(self)@.redo_stacks.push(seq![c]));
                }
            },
        }
    }

    fn pop_redo(&mut self)
        ensures
            final(self)@ == with_redo_popped(old(self)@),
    {
        match self.redo_index(self.active_branch.as_str()) {
            Some(k) => {
                let mut e = self.redo.remove(k);
                if e.commits.len() <= 1 {
                    proof {
                        assert(self@.redo_names =~= old(self)@.redo_names.remove(k as int));
                        assert(self@.redo_stacks =~= old(self)@.redo_stacks.remove(k as int));
                    }
                } else {
                    e.commits.pop();
                    self.redo.insert(k, e);
                    proof {
                        assert(self@.redo_names =~= old(self)@.redo_names);
                        assert(self@.redo_stacks =~= old(self)@.redo_stacks.update(
                            k as int,
                            old(self)@.redo_stacks[k as int].drop_last(),
                        ));
                    }
                }
            },
            None => {},
        }
    }

    fn drop_redo(&mut self)
        ensures
            final(self)@ == without_redo(old(self)@),
    {
        match self.redo_index(self.active_branch.as_str()) {
            Some(k) => {
                self.redo.remove(k);
                proof {
                    assert(self@.redo_names =~= old(self)@.redo_names.remove(k as int));
                    assert(self@.redo_stacks =~= old(self)@.redo_stacks.remove(k as int));
                }
            },
            None => {},
        }
    }

    /// Moves the active branch to its parent without deleting history; the
    /// abandoned head is kept on the branch's redo stack.
    fn undo(&mut self) -> (r: Result<CommitId, HistoryError>)
        requires
            graph_ok(old(self)@),
        ensures
            graph_ok(final(self)@),
            (final(self)@, history_view(r)) == undo_outcome(old(self)@),
    {
        let current = self.head();
        let parent = match self.commit_index(current) {
            None => {
                return Err(HistoryError::CommitMissing(current));
            },
            Some(k) => match self.commits[k].parent {
                None => {
                    return Err(HistoryError::NothingToUndo);
                },
                Some(p) => p,
            },
        };
        proof {
            lemma_commit_pos(self@.commits, current, 0);
            let k = commit_pos(self@.commits, current, 0).unwrap();
            assert(self@.commits[k].id < self@.next);
            lemma_with_head_ok(self@, parent);
            lemma_redo_ok(with_head(self@, parent), current);
        }
        self.set_active_head(parent);
        self.push_redo(current);
        Ok(parent)
    }

    /// Makes the most recently undone commit of the active branch its head again.
    fn redo(&mut self) -> (r: Result<CommitId, HistoryError>)
        requires
            graph_ok(old(self)@),
        ensures
            graph_ok(final(self)@),
            (final(self)@, history_view(r)) == redo_outcome(old(self)@),
    {
        let current = self.head();
        let commit_id = match self.redo_index(self.active_branch.as_str()) {
            None => {
                return Err(HistoryError::NothingToRedo);
            },
            Some(k) => {
                let n = self.redo[k].commits.len();
                if n == 0 {
                    return Err(HistoryError::NothingToRedo);
                }
                self.redo[k].commits[n - 1]
            },
        };
        let parent = match self.commit_index(commit_id) {
            None => {
                return Err(HistoryError::CommitMissing(commit_id));
            },
            Some(j) => self.commits[j].parent,
        };
        let follows = match parent {
            Some(p) => p == current,
            None => false,
        };
        if !follows {
            let mut m = String::new();
            push_str(&mut m, "redo commit ");
            push_decimal(&mut m, commit_id);
            push_str(&mut m, " does not follow active head ");
            push_decimal(&mut m, current);
            proof {
                assert(m@ =~= redo_mismatch_message(commit_id, current));
            }
            return Err(HistoryError::InvalidHistory(m));
        }
        proof {
            lemma_commit_pos(self@.commits, commit_id, 0);
            let k = commit_pos(self@.commits, commit_id, 0).unwrap();
            assert(self@.commits[k].id < self@.next);
            lemma_with_head_ok(self@, commit_id);
            lemma_redo_ok(with_head(self@, commit_id), commit_id);
        }
        self.set_active_head(commit_id);
        self.pop_redo();
        Ok(commit_id)
    }

    /// The commit `redo` would make the head, or what it would report.
    fn redo_target(&self) -> (r: Result<CommitId, HistoryError>)
        requires
            graph_ok(self@),
        ensures
            history_view(r) == redo_outcome(self@).1,
    {
        let current = self.head();
        let commit_id = match self.redo_index(self.active_branch.as_str()) {
            None => {
                return Err(HistoryError::NothingToRedo);
            },
            Some(k) => {
                let n = self.redo[k].commits.len();
                if n == 0 {
                    return Err(HistoryError::NothingToRedo);
                }
                self.redo[k].commits[n - 1]
            },
        };
        let parent = match self.commit_index(commit_id) {
            None => {
                return Err(HistoryError::CommitMissing(commit_id));
            },
            Some(j) => self.commits[j].parent,
        };
        let follows = match parent {
            Some(p) => p == current,
            None => false,
        };
        if !follows {
            let mut m = String::new();
            push_str(&mut m, "redo commit ");
            push_decimal(&mut m, commit_id);
            push_str(&mut m, " does not follow active head ");
            push_decimal(&mut m, current);
            proof {
                assert(m@ =~= redo_mismatch_message(commit_id, current));
            }
            return Err(HistoryError::InvalidHistory(m));
        }
        Ok(commit_id)
    }

    /// Records a new commit on the active branch: it gets the next id, becomes
    /// the head, clears the branch's redo stack, and carries a snapshot when
    /// its id is a multiple of the snapshot interval.
    fn record_commit(&mut self) -> (r: Result<CommitId, HistoryError>)
        requires
            graph_ok(old(self)@),
        ensures
            graph_ok(final(self)@),
            (final(self)@, history_view(r)) == record_outcome(old(self)@),
    {
        if self.next_commit_id == u64::MAX {
            return Err(
                HistoryError::InvalidHistory("commit id space is exhausted".to_owned()),
            );
        }
        let parent = self.head();
        let id = self.next_commit_id;
        proof {
            lemma_name_pos(self@.branch_names, self@.active, 0);
        }
        self.next_commit_id = id + 1;
        self.commits.push(CommitNode { id, parent: Some(parent) });
        proof {
            lemma_with_head_ok(self@, id);
            lemma_redo_ok(with_head(self@, id), id);
        }
        self.set_active_head(id);
        self.drop_redo();
        if id % self.snapshot_interval == 0 {
            self.snapshots.push(id);
        }
        Ok(id)
    }

    /// Adds branch `name` at commit `from`.
    fn create_branch(&mut self, name: String, from: CommitId) -> (r: Result<(), HistoryError>)
        requires
            graph_ok(old(self)@),
        ensures
            graph_ok(final(self)@),
            (final(self)@, history_view(r)) == create_branch_outcome(old(self)@, name@, from),
    {
        if str_is_blank(name.as_str()) {
            return Err(HistoryError::InvalidBranchName);
        }
        if self.branch_index(name.as_str()).is_some() {
            return Err(HistoryError::BranchExists(name));
        }
        if self.commit_index(from).is_none() {
            return Err(HistoryError::CommitMissing(from));
        }
        proof {
            lemma_commit_pos(self@.commits, from, 0);
            lemma_name_pos_push_keep(self@.branch_names, name@, self@.active, 0);
        }
        self.branches.push(DesignBranch { name, head: from });
        proof {
            assert(self@.branch_names =~= old(self)@.branch_names.push(name@));
            assert(self@.heads =~= old(self)@.heads.push(from));
        }
        Ok(())
    }

    /// Makes branch `name` active and gives its head.
    fn checkout_branch(&mut self, name: &str) -> (r: Result<CommitId, HistoryError>)
        requires
            graph_ok(old(self)@),
        ensures
            graph_ok(final(self)@),
            match branch_head(old(self)@, name@) {
                None => final(self)@ == old(self)@ && history_view(r) == Err::<CommitId, HistoryFault>(
                    HistoryFault::BranchMissing(name@),
                ),
                Some(h) => final(self)@ == (HistoryState { active: name@, ..old(self)@ }) && r
                    == Ok::<CommitId, HistoryError>(h),
            },
    {
        match self.branch_index(name) {
            None => Err(HistoryError::BranchMissing(name.to_owned())),
            Some(k) => {
                let h = self.branches[k].head;
                self.active_branch = name.to_owned();
                Ok(h)
            },
        }
    }

    /// Whether `ancestor` is `descendant` or one of its ancestors.
    fn is_ancestor(&self, ancestor: CommitId, descendant: CommitId) -> (r: Result<
        bool,
        HistoryError,
    >)
        requires
            graph_ok(self@),
        ensures
            history_view(r) == (if parent_of(self@, ancestor) is None {
                Err(HistoryFault::CommitMissing(ancestor))
            } else {
                ancestry(self@, ancestor, descendant)
            }),
    {
        if self.commit_index(ancestor).is_none() {
            return Err(HistoryError::CommitMissing(ancestor));
        }
        let mut cursor = descendant;
        loop
            invariant
                parents_precede(self@),
                parent_of(self@, ancestor) is Some,
                ancestry(self@, ancestor, descendant) == ancestry(self@, ancestor, cursor),
            decreases cursor,
        {
            if cursor == ancestor {
                return Ok(true);
            }
            match self.commit_index(cursor) {
                None => {
                    return Err(HistoryError::CommitMissing(cursor));
                },
                Some(k) => {
                    proof {
                        lemma_commit_pos(self@.commits, cursor, 0);
                    }
                    match self.commits[k].parent {
                        None => {
                            return Ok(false);
                        },
                        Some(p) => {
                            cursor = p;
                        },
                    }
                },
            }
        }
    }

    /// Whether commit `id` carries a snapshot.
    fn has_snapshot(&self, id: CommitId) -> (r: bool)
        ensures
            r == self@.snapshots.contains(id),
    {
        let mut i: usize = 0;
        while i < self.snapshots.len()
            invariant
                i <= self@.snapshots.len(),
                forall|j: int| 0 <= j < i ==> self@.snapshots[j] != id,
            decreases self@.snapshots.len() - i,
        {
            if self.snapshots[i] == id {
                proof {
                    assert(self@.snapshots[i as int] == id);
                }
                return true;
            }
            i += 1;
        }
        false
    }

    fn replay_from(&self, cursor: CommitId) -> (r: Result<(CommitId, Vec<CommitId>), HistoryError>)
        requires
            parents_precede(self@),
        ensures
            match replay_plan(self@, cursor) {
                Ok((start, path)) => r matches Ok((x, v)) && x == start && v@ == path,
                Err(f) => r matches Err(e) && e@ == f,
            },
        decreases cursor,
    {
        if self.has_snapshot(cursor) {
            return Ok((cursor, Vec::new()));
        }
        match self.commit_index(cursor) {
            None => Err(HistoryError::CommitMissing(cursor)),
            Some(k) => {
                proof {
                    lemma_commit_pos(self@.commits, cursor, 0);
                }
                match self.commits[k].parent {
                    None => Err(HistoryError::InvalidHistory("root commit is missing a snapshot".to_owned())),
                    Some(p) => {
                        if p >= cursor {
                            proof {
                                assert(self@.commits[k as int].id == cursor);
                            }
                            return Err(HistoryError::InvalidHistory("commit ancestry contains a cycle".to_owned()));
                        }
                        match self.replay_from(p) {
                            Err(e) => Err(e),
                            Ok((start, mut path)) => {
                                path.push(cursor);
                                Ok((start, path))
                            },
                        }
                    },
                }
            },
        }
    }

    /// What restoring commit `target` replays: the snapshot it starts from
    /// and the commits to apply on it, oldest first.
    fn restore_path(&self, target: CommitId) -> (r: Result<(CommitId, Vec<CommitId>), HistoryError>)
        requires
            graph_ok(self@),
        ensures
            parent_of(self@, target) is None ==> history_view(r) == Err::<
                (CommitId, Vec<CommitId>),
                HistoryFault,
            >(HistoryFault::CommitMissing(target)),
            parent_of(self@, target) is Some ==> match replay_plan(self@, target) {
                Ok((start, path)) => r matches Ok((x, v)) && x == start && v@ == path,
                Err(f) => r matches Err(e) && e@ == f,
            },
    {
        if self.commit_index(target).is_none() {
            return Err(HistoryError::CommitMissing(target));
        }
        self.replay_from(target)
    }

    /// The commits in the order they are stored.
    fn ordered_commits(&self) -> (r: Vec<CommitNode>)
        ensures
            r@ == self@.commits,
    {
        let mut r: Vec<CommitNode> = Vec::new();
        let mut i: usize = 0;
        while i < self.commits.len()
            invariant
                i <= self@.commits.len(),
                r@ == self@.commits.take(i as int),
            decreases self@.commits.len() - i,
        {
            r.push(self.commits[i]);
            proof {
                assert(r@ =~= self@.commits.take(i + 1));
            }
            i += 1;
        }
        proof {
            assert(self@.commits.take(self@.commits.len() as int) =~= self@.commits);
        }
        r
    }

    /// Whether the active head has a parent to return to.
    fn can_undo(&self) -> (r: bool)
        requires
            graph_ok(self@),
        ensures
            r == (parent_of(self@, head_of(self@)) matches Some(Some(_))),
    {
        match self.parent(self.head()) {
            Some(Some(_)) => true,
            _ => false,
        }
    }

    /// Whether the active branch has an undone commit to redo.
    fn can_redo(&self) -> (r: bool)
        requires
            graph_ok(self@),
        ensures
            r == (redo_of(self@, self@.active).len() > 0),
    {
        match self.redo_index(self.active_branch.as_str()) {
            Some(k) => self.redo[k].commits.len() > 0,
            None => false,
        }
    }
}

/// Where restoring commit `c` starts and what it replays: walking back from
/// `c`, the first commit with a snapshot, and the commits after it up to `c`,
/// oldest first.
pub open spec fn replay_plan(s: HistoryState, c: CommitId) -> Result<(CommitId, Seq<CommitId>), HistoryFault>
    decreases c,
{
    if s.snapshots.contains(c) {
        Ok((c, Seq::empty()))
    } else {
        match parent_of(s, c) {
            None => Err(HistoryFault::CommitMissing(c)),
            Some(None) => Err(HistoryFault::InvalidHistory("root commit is missing a snapshot"@)),
            Some(Some(p)) => if p < c {
                match replay_plan(s, p) {
                    Ok((start, path)) => Ok((start, path.push(c))),
                    Err(f) => Err(f),
                }
            } else {
                Err(HistoryFault::InvalidHistory("commit ancestry contains a cycle"@))
            },
        }
    }
}

/// A copy of a list of commit ids.
fn copy_ids(v: &Vec<CommitId>) -> (c: Vec<CommitId>)
    ensures
        c@ == v@,
{
    let mut c: Vec<CommitId> = Vec::new();
    let mut i: usize = 0;
    while i < v.len()
        invariant
            i <= v@.len(),
            c@ == v@.take(i as int),
        decreases v@.len() - i,
    {
        c.push(v[i]);
        proof {
            assert(c@ =~= v@.take(i + 1));
        }
        i += 1;
    }
    proof {
        assert(v@.take(v@.len() as int) =~= v@);
    }
    c
}

impl GraphBody {
    /// Rebuilds the commit graph of a stored history once it passes every
    /// integrity check, reporting the first fault otherwise; redo stacks that
    /// hold no commit are left out.
    fn from_parts(parts: &HistoryParts, found: ReplayFindings) -> (r: Result<GraphBody, HistoryError>)
        requires
            commit_keys_distinct(parts@),
            redo_names_distinct(parts@.redo),
        ensures
            match integrity_fault(parts@, found) {
                Some(f) => r matches Err(e) && e@ == f,
                None => r matches Ok(g) && g@ == assembled(parts@) && graph_ok(g@),
            },
    {
        let ghost p = parts@;
        let ghost fnd = found;
        match parts.validate_integrity(found) {
            Err(e) => {
                return Err(e);
            },
            Ok(()) => {},
        }
        let mut commits: Vec<CommitNode> = Vec::new();
        let mut i: usize = 0;
        while i < parts.commits.len()
            invariant
                p == parts@,
                i <= p.commits.len(),
                commits@ == commit_nodes(p.commits).take(i as int),
            decreases p.commits.len() - i,
        {
            commits.push(parts.commits[i].1);
            proof {
                assert(commits@ =~= commit_nodes(p.commits).take(i + 1));
            }
            i += 1;
        }
        let mut branches: Vec<DesignBranch> = Vec::new();
        let mut k: usize = 0;
        while k < parts.branches.len()
            invariant
                p == parts@,
                k <= parts.branches@.len(),
                branches@.len() == k,
                forall|x: int|
                    0 <= x < k ==> (#[trigger] branches@[x]).name@ == p.branch_names[x]
                        && branches@[x].head == p.branch_heads[x],
            decreases parts.branches@.len() - k,
        {
            let b = &parts.branches[k].1;
            branches.push(DesignBranch { name: b.name.clone(), head: b.head });
            k += 1;
        }
        let mut redo: Vec<RedoEntry> = Vec::new();
        let mut j: usize = 0;
        while j < parts.redo.len()
            invariant
                p == parts@,
                j <= p.redo.len(),
                redo@.map_values(|e: RedoEntry| (e.branch@, e.commits@)) == kept_redo(p.redo.take(j as int)),
            decreases p.redo.len() - j,
        {
            proof {
                let t = p.redo.take(j + 1);
                assert(t.drop_last() =~= p.redo.take(j as int));
                assert(t.last() == p.redo[j as int]);
                reveal(Seq::filter);
            }
            let e = &parts.redo[j];
            if e.commits.len() > 0 {
                redo.push(RedoEntry { branch: e.branch.clone(), commits: copy_ids(&e.commits) });
            }
            proof {
                assert(redo@.map_values(|e: RedoEntry| (e.branch@, e.commits@)) =~= kept_redo(
                    p.redo.take(j + 1),
                ));
            }
            j += 1;
        }
        let mut snapshots: Vec<CommitId> = Vec::new();
        let mut n: usize = 0;
        while n < parts.snapshots.len()
            invariant
                p == parts@,
                n <= p.snapshots.len(),
                snapshots@ == snapshot_keys(p.snapshots).take(n as int),
            decreases p.snapshots.len() - n,
        {
            snapshots.push(parts.snapshots[n].0);
            proof {
                assert(snapshots@ =~= snapshot_keys(p.snapshots).take(n + 1));
            }
            n += 1;
        }
        let g = GraphBody {
            commits,
            branches,
            active_branch: parts.active_branch.clone(),
            redo,
            snapshots,
            snapshot_interval: parts.snapshot_interval,
            next_commit_id: parts.next_commit_id,
        };
        proof {
            assert(commit_nodes(p.commits).take(p.commits.len() as int) =~= commit_nodes(p.commits));
            assert(g@.branch_names =~= p.branch_names);
            assert(g@.heads =~= p.branch_heads);
            assert(p.redo.take(p.redo.len() as int) =~= p.redo);
            assert(snapshot_keys(p.snapshots).take(p.snapshots.len() as int) =~= snapshot_keys(p.snapshots));
            let kr = kept_redo(p.redo);
            let rv = g.redo@.map_values(|e: RedoEntry| (e.branch@, e.commits@));
            assert(rv == kr);
            assert(g@.redo_names =~= kr.map_values(|e: (Seq<char>, Seq<CommitId>)| e.0)) by {
                assert forall|x: int| 0 <= x < kr.len() implies g@.redo_names[x] == kr[x].0 by {
                    assert(rv[x] == (g.redo@[x].branch@, g.redo@[x].commits@));
                }
            }
            assert(g@.redo_stacks =~= kr.map_values(|e: (Seq<char>, Seq<CommitId>)| e.1)) by {
                assert forall|x: int| 0 <= x < kr.len() implies g@.redo_stacks[x] == kr[x].1 by {
                    assert(rv[x] == (g.redo@[x].branch@, g.redo@[x].commits@));
                }
            }
            assert(g@ == assembled(p));
            assert(parts_shaped(p));
            law_intact_history_is_well_formed(p, fnd);
        }
        Ok(g)
    }
}

/// The commit structure of a history: commits and their parents, branches
/// with their heads, the active branch, per-branch redo stacks and the commits
/// that carry snapshots. Every value keeps the shape `graph_ok` describes.
pub struct CommitGraph {
    body: GraphBody,
}

impl CommitGraph {
    #[verifier::type_invariant]
    spec fn keeps_shape(self) -> bool {
        graph_ok(self.body@)
    }
}

impl View for CommitGraph {
    type V = HistoryState;

    closed spec fn view(&self) -> HistoryState {
        self.body@
    }
}

impl CommitGraph {
    /// A history whose root commit 0 is the head of branch `main`.
    pub fn new() -> (g: Self)
        ensures
            g@.commits == seq![CommitNode { id: 0, parent: None }],
            g@.branch_names == seq!["main"@],
            g@.heads == seq![0u64],
            g@.active == "main"@,
            g@.redo_names.len() == 0,
            g@.snapshots == seq![0u64],
            g@.interval == INITIAL_SNAPSHOT_INTERVAL,
            g@.next == 1,
            graph_ok(g@),
    {
        CommitGraph { body: GraphBody::new() }
    }

    /// Takes the fields out for an update, leaving a fresh graph in place.
    fn take_body(&mut self) -> (b: GraphBody)
        ensures
            b@ == old(self)@,
            graph_ok(b@),
    {
        proof {
            use_type_invariant(&*self);
        }
        let mut b = GraphBody::new();
        std::mem::swap(&mut b, &mut self.body);
        b
    }

    /// The head of the active branch.
    pub fn head(&self) -> (h: CommitId)
        ensures
            h == head_of(self@),
    {
        proof {
            use_type_invariant(self);
        }
        self.body.head()
    }

    /// The name of the active branch.
    pub fn active_branch(&self) -> (n: &str)
        ensures
            n@ == self@.active,
    {
        self.body.active_branch()
    }

    /// The head of branch `name`, if there is such a branch.
    pub fn branch_head(&self, name: &str) -> (r: Option<CommitId>)
        ensures
            r == branch_head(self@, name@),
    {
        self.body.branch_head(name)
    }

    /// The parent of commit `id`: `None` without such a commit.
    pub fn parent(&self, id: CommitId) -> (r: Option<Option<CommitId>>)
        ensures
            r == parent_of(self@, id),
    {
        self.body.parent(id)
    }

    /// Moves the active branch to its parent without deleting history; the
    /// abandoned head is kept on the branch's redo stack.
    pub fn undo(&mut self) -> (r: Result<CommitId, HistoryError>)
        ensures
            (final(self)@, history_view(r)) == undo_outcome(old(self)@),
    {
        let mut b = self.take_body();
        let r = b.undo();
        self.body = b;
        r
    }

    /// Makes the most recently undone commit of the active branch its head again.
    pub fn redo(&mut self) -> (r: Result<CommitId, HistoryError>)
        ensures
            (final(self)@, history_view(r)) == redo_outcome(old(self)@),
    {
        let mut b = self.take_body();
        let r = b.redo();
        self.body = b;
        r
    }

    /// The commit `redo` would make the head, or what it would report.
    pub fn redo_target(&self) -> (r: Result<CommitId, HistoryError>)
        ensures
            history_view(r) == redo_outcome(self@).1,
    {
        proof {
            use_type_invariant(self);
        }
        self.body.redo_target()
    }

    /// Records a new commit on the active branch: it gets the next id, becomes
    /// the head, clears the branch's redo stack, and carries a snapshot when
    /// its id is a multiple of the snapshot interval.
    pub fn record_commit(&mut self) -> (r: Result<CommitId, HistoryError>)
        ensures
            (final(self)@, history_view(r)) == record_outcome(old(self)@),
    {
        let mut b = self.take_body();
        let r = b.record_commit();
        self.body = b;
        r
    }

    /// Adds branch `name` at commit `from`.
    pub fn create_branch(&mut self, name: String, from: CommitId) -> (r: Result<(), HistoryError>)
        ensures
            (final(self)@, history_view(r)) == create_branch_outcome(old(self)@, name@, from),
    {
        let mut b = self.take_body();
        let r = b.create_branch(name, from);
        self.body = b;
        r
    }

    /// Makes branch `name` active and gives its head.
    pub fn checkout_branch(&mut self, name: &str) -> (r: Result<CommitId, HistoryError>)
        ensures
            match branch_head(old(self)@, name@) {
                None => final(self)@ == old(self)@ && history_view(r) == Err::<CommitId, HistoryFault>(
                    HistoryFault::BranchMissing(name@),
                ),
                Some(h) => final(self)@ == (HistoryState { active: name@, ..old(self)@ }) && r
                    == Ok::<CommitId, HistoryError>(h),
            },
    {
        let mut b = self.take_body();
        let r = b.checkout_branch(name);
        self.body = b;
        r
    }

    /// Whether `ancestor` is `descendant` or one of its ancestors.
    pub fn is_ancestor(&self, ancestor: CommitId, descendant: CommitId) -> (r: Result<
        bool,
        HistoryError,
    >)
        ensures
            history_view(r) == (if parent_of(self@, ancestor) is None {
                Err(HistoryFault::CommitMissing(ancestor))
            } else {
                ancestry(self@, ancestor, descendant)
            }),
    {
        proof {
            use_type_invariant(self);
        }
        self.body.is_ancestor(ancestor, descendant)
    }

    /// What restoring commit `target` replays: the snapshot it starts from
    /// and the commits to apply on it, oldest first.
    pub fn restore_path(&self, target: CommitId) -> (r: Result<(CommitId, Vec<CommitId>), HistoryError>)
        ensures
            parent_of(self@, target) is None ==> history_view(r) == Err::<
                (CommitId, Vec<CommitId>),
                HistoryFault,
            >(HistoryFault::CommitMissing(target)),
            parent_of(self@, target) is Some ==> match replay_plan(self@, target) {
                Ok((start, path)) => r matches Ok((x, v)) && x == start && v@ == path,
                Err(f) => r matches Err(e) && e@ == f,
            },
    {
        proof {
            use_type_invariant(self);
        }
        self.body.restore_path(target)
    }

    /// The commits in the order they are stored.
    pub fn ordered_commits(&self) -> (r: Vec<CommitNode>)
        ensures
            r@ == self@.commits,
    {
        self.body.ordered_commits()
    }

    /// Whether the active head has a parent to return to.
    pub fn can_undo(&self) -> (r: bool)
        ensures
            r == (parent_of(self@, head_of(self@)) matches Some(Some(_))),
    {
        proof {
            use_type_invariant(self);
        }
        self.body.can_undo()
    }

    /// Whether the active branch has an undone commit to redo.
    pub fn can_redo(&self) -> (r: bool)
        ensures
            r == (redo_of(self@, self@.active).len() > 0),
    {
        proof {
            use_type_invariant(self);
        }
        self.body.can_redo()
    }

    /// Rebuilds the commit graph of a stored history once it passes every
    /// integrity check, reporting the first fault otherwise; redo stacks that
    /// hold no commit are left out.
    pub fn from_parts(parts: &HistoryParts, found: ReplayFindings) -> (r: Result<CommitGraph, HistoryError>)
        requires
            commit_keys_distinct(parts@),
            redo_names_distinct(parts@.redo),
        ensures
            match integrity_fault(parts@, found) {
                Some(f) => r matches Err(e) && e@ == f,
                None => r matches Ok(g) && g@ == assembled(parts@) && graph_ok(g@),
            },
    {
        match GraphBody::from_parts(parts, found) {
            Err(e) => Err(e),
            Ok(body) => Ok(CommitGraph { body }),
        }
    }
}


/// Restoring a commit starts from a commit that carries a snapshot and
/// replays a chain of commits, each the child of the one before (the first
/// the child of the snapshot's commit), ending at the restored commit.
pub proof fn law_restore_replays_a_parent_chain(s: HistoryState, c: CommitId)
    ensures
        replay_plan(s, c) matches Ok((start, path)) ==> {
            &&& s.snapshots.contains(start)
            &&& path.len() == 0 ==> start == c
            &&& path.len() > 0 ==> {
                &&& path.last() == c
                &&& parent_of(s, path[0]) == Some(Some(start))
                &&& forall|i: int| 1 <= i < path.len() ==> parent_of(s, #[trigger] path[i]) == Some(Some(path[i - 1]))
            }
        },
    decreases c,
{
    if !s.snapshots.contains(c) {
        if let Some(Some(p)) = parent_of(s, c) {
            if p < c {
                law_restore_replays_a_parent_chain(s, p);
                if let Ok((start, path)) = replay_plan(s, p) {
                    let full = path.push(c);
                    assert forall|i: int| 1 <= i < full.len() implies parent_of(s, #[trigger] full[i]) == Some(
                        Some(full[i - 1]),
                    ) by {
                        if i < path.len() {
                            assert(full[i] == path[i] && full[i - 1] == path[i - 1]);
                        } else {
                            assert(full[i - 1] == path.last());
                        }
                    }
                    if path.len() > 0 {
                        assert(full[0] == path[0]);
                    }
                }
            }
        }
    }
}


/// Redo right after a successful undo gives back the undone commit and
/// restores the history exactly as it was before the undo.
pub proof fn law_redo_reverses_undo(s: HistoryState)
    requires
        graph_ok(s),
        undo_outcome(s).1 is Ok,
    ensures
        redo_outcome(undo_outcome(s).0) == (s, Ok::<CommitId, HistoryFault>(head_of(s))),
{
    let h = head_of(s);
    let p = undo_outcome(s).1->Ok_0;
    let s0 = with_head(s, p);
    let s1 = undo_outcome(s).0;
    lemma_name_pos(s.branch_names, s.active, 0);
    lemma_name_pos(s.redo_names, s.active, 0);
    let kb = name_pos(s.branch_names, s.active, 0).unwrap();
    assert(head_of(s1) == p);
    assert(parent_of(s1, h) == parent_of(s, h));
    match name_pos(s.redo_names, s.active, 0) {
        Some(k) => {
            assert(redo_of(s1, s1.active) == s.redo_stacks[k].push(h));
            assert(s.redo_stacks[k].len() > 0);
            let t = with_redo_popped(with_head(s1, h));
            assert(t.heads =~= s.heads);
            assert(s.redo_stacks[k].push(h).drop_last() =~= s.redo_stacks[k]);
            assert(t.redo_stacks =~= s.redo_stacks);
            assert(t == s);
        },
        None => {
            lemma_name_pos_push(s.redo_names, s.active, 0);
            assert(redo_of(s1, s1.active) == seq![h]);
            let t = with_redo_popped(with_head(s1, h));
            assert(t.heads =~= s.heads);
            assert(t.redo_names =~= s.redo_names);
            assert(t.redo_stacks =~= s.redo_stacks);
            assert(t == s);
        },
    }
}

/// Undo moves the active branch to an ancestor of its old head and keeps
/// every commit.
pub proof fn law_undo_moves_to_ancestor(s: HistoryState)
    requires
        graph_ok(s),
        undo_outcome(s).1 is Ok,
    ensures
        undo_outcome(s).0.commits == s.commits,
        ancestry(undo_outcome(s).0, head_of(undo_outcome(s).0), head_of(s)) == Ok::<
            bool,
            HistoryFault,
        >(true),
{
    let h = head_of(s);
    let p = undo_outcome(s).1->Ok_0;
    let s1 = undo_outcome(s).0;
    lemma_commit_pos(s.commits, h, 0);
    let k = commit_pos(s.commits, h, 0).unwrap();
    assert(s.commits[k].id < s.next);
    lemma_with_head_ok(s, p);
    assert(head_of(s1) == p) by {
        lemma_name_pos(s.branch_names, s.active, 0);
    };
    assert(ancestry(s1, p, p) == Ok::<bool, HistoryFault>(true));
}

/// A recorded commit becomes the head, its parent is the old head, and the
/// active branch has nothing left to redo.
pub proof fn law_record_clears_redo(s: HistoryState)
    requires
        graph_ok(s),
        record_outcome(s).1 is Ok,
    ensures
        head_of(record_outcome(s).0) == s.next,
        parent_of(record_outcome(s).0, s.next) == Some(Some(head_of(s))),
        redo_of(record_outcome(s).0, s.active).len() == 0,
{
    let t = record_outcome(s).0;
    lemma_name_pos(s.branch_names, s.active, 0);
    lemma_name_pos(s.redo_names, s.active, 0);
    let pushed = s.commits.push(CommitNode { id: s.next, parent: Some(head_of(s)) });
    lemma_commit_pos(s.commits, s.next, 0);
    lemma_commit_pos_push(s.commits, CommitNode { id: s.next, parent: Some(head_of(s)) }, 0);
    match name_pos(s.redo_names, s.active, 0) {
        Some(k) => {
            lemma_name_pos_removed(s.redo_names, s.active, k);
        },
        None => {},
    }
}

proof fn lemma_commit_pos_push(commits: Seq<CommitNode>, c: CommitNode, i: int)
    requires
        0 <= i <= commits.len(),
        forall|k: int| i <= k < commits.len() ==> commits[k].id != c.id,
    ensures
        commit_pos(commits.push(c), c.id, i) == Some(commits.len() as int),
    decreases commits.len() - i,
{
    if i < commits.len() {
        lemma_commit_pos_push(commits, c, i + 1);
    }
}

/// Removing the only occurrence of a name leaves none.
proof fn lemma_name_pos_removed(names: Seq<Seq<char>>, name: Seq<char>, k: int)
    requires
        names.no_duplicates(),
        name_pos(names, name, 0) == Some(k),
    ensures
        name_pos(names.remove(k), name, 0) is None,
{
    lemma_name_pos(names, name, 0);
    lemma_name_pos(names.remove(k), name, 0);
    if let Some(j) = name_pos(names.remove(k), name, 0) {
        if j < k {
            assert(names[j] == name);
        } else {
            assert(names[j + 1] == name);
        }
    }
}


/// A comparison is empty exactly when its summary reads `0 added, 0
/// removed, 0 modified`.
pub proof fn law_comparison_empty_iff_summary_reads_zero(c: HistoryComparison)
    ensures
        (c.additions() == 0 && c.removals() == 0 && c.modifications() == 0) <==> (decimal(
            c.additions(),
        ) == seq!['0'] && decimal(c.removals()) == seq!['0'] && decimal(c.modifications())
            == seq!['0']),
{
    law_decimal_reads_zero(c.additions());
    law_decimal_reads_zero(c.removals());
    law_decimal_reads_zero(c.modifications());
}

/// Two layers hold the same content exactly when they agree on every field:
/// id, name, visibility, lock and colour.
pub proof fn law_layers_compare_by_every_field(a: Layer, b: Layer)
    ensures
        a.same(&b) <==> (a.id == b.id && a.name@ == b.name@ && a.visible == b.visible && a.locked
            == b.locked && a.color@ == b.color@),
{
}

proof fn lemma_value_at_unique<T>(m: Seq<(u64, T)>, i: int)
    requires
        keys_increasing(m),
        0 <= i < m.len(),
    ensures
        has_key(m, m[i].0),
        value_at(m, m[i].0) == m[i].1,
{
    let k = m[i].0;
    assert(m[i].0 == k);
    let c = choose|c: int| 0 <= c < m.len() && m[c].0 == k;
    if c != i {
        if c < i {
            assert(m[c].0 < m[i].0);
        } else {
            assert(m[i].0 < m[c].0);
        }
    }
}

/// Between two maps held in key order, a key is reported modified exactly
/// when both hold it and the target's value differs in content from the
/// base's.
pub proof fn law_changed_keys_are_the_differing_ones<T: SameContent>(
    base: Seq<(u64, T)>,
    target: Seq<(u64, T)>,
    k: u64,
)
    requires
        keys_increasing(base),
    ensures
        keys_changed(base, target).contains(k) <==> (has_key(base, k) && has_key(target, k) && !value_at(
            target,
            k,
        ).same(&value_at(base, k))),
    decreases base.len(),
{
    if base.len() == 0 {
        assert(!has_key(base, k));
    } else {
        let rest = base.drop_last();
        let n = base.len() - 1;
        let last = base.last();
        assert(keys_increasing(rest)) by {
            assert forall|i: int, j: int| 0 <= i < j < rest.len() implies rest[i].0 < rest[j].0 by {
                assert(rest[i] == base[i] && rest[j] == base[j]);
            }
        }
        law_changed_keys_are_the_differing_ones(rest, target, k);
        lemma_value_at_unique(base, n);
        let kc = keys_changed(rest, target);
        assert(kc.push(last.0).contains(k) <==> (kc.contains(k) || last.0 == k)) by {
            if kc.contains(k) {
                let j = choose|j: int| 0 <= j < kc.len() && kc[j] == k;
                assert(kc.push(last.0)[j] == k);
            }
            if last.0 == k {
                assert(kc.push(last.0)[kc.len() as int] == k);
            }
            if kc.push(last.0).contains(k) {
                let j = choose|j: int| 0 <= j < kc.len() + 1 && kc.push(last.0)[j] == k;
                if j < kc.len() {
                    assert(kc[j] == k);
                }
            }
        }
        if k == last.0 {
            assert(!has_key(rest, k)) by {
                if has_key(rest, k) {
                    let c = choose|c: int| 0 <= c < rest.len() && #[trigger] rest[c].0 == k;
                    assert(base[c].0 < base[n].0);
                }
            }
        } else {
            if has_key(base, k) {
                let c = choose|c: int| 0 <= c < base.len() && #[trigger] base[c].0 == k;
                assert(c < n);
                assert(rest[c] == base[c]);
                lemma_value_at_unique(base, c);
                lemma_value_at_unique(rest, c);
                assert(has_key(rest, k));
            } else {
                assert(!has_key(rest, k)) by {
                    if has_key(rest, k) {
                        let c = choose|c: int| 0 <= c < rest.len() && #[trigger] rest[c].0 == k;
                        assert(base[c] == rest[c]);
                    }
                }
            }
        }
    }
}

/// Ancestry runs through parents: in a history whose parents precede their
/// children, an ancestor of a commit's parent is an ancestor of the commit.
pub proof fn law_ancestor_of_parent_is_ancestor(s: HistoryState, a: CommitId, p: CommitId, c: CommitId)
    requires
        parents_precede(s),
        ancestry(s, a, p) == Ok::<bool, HistoryFault>(true),
        parent_of(s, c) == Some(Some(p)),
    ensures
        ancestry(s, a, c) == Ok::<bool, HistoryFault>(true),
{
    lemma_commit_pos(s.commits, c, 0);
    let k = commit_pos(s.commits, c, 0).unwrap();
    assert(s.commits[k].parent == Some(p));
    assert(p < c);
}

/// Ancestry is transitive: an ancestor of an ancestor of a commit is an
/// ancestor of that commit.
pub proof fn law_ancestry_is_transitive(s: HistoryState, a: CommitId, b: CommitId, c: CommitId)
    requires
        ancestry(s, a, b) == Ok::<bool, HistoryFault>(true),
        ancestry(s, b, c) == Ok::<bool, HistoryFault>(true),
    ensures
        ancestry(s, a, c) == Ok::<bool, HistoryFault>(true),
    decreases c,
{
    if c != b {
        if let Some(Some(p)) = parent_of(s, c) {
            if p < c {
                law_ancestry_is_transitive(s, a, b, p);
            }
        }
    }
}

/// Every commit of a history is its own ancestor.
pub proof fn law_commit_is_its_own_ancestor(s: HistoryState, c: CommitId)
    ensures
        ancestry(s, c, c) == Ok::<bool, HistoryFault>(true),
{
}

} // verus!
