//! Project-scoped grants for sending context to a remote model provider, and
//! the append-only ledger they are replayed from.

use vstd::prelude::*;

use crate::capability::Capability;
use crate::expression::utf8;
use crate::text::{decimal, is_blank, push_decimal, push_str, str_contains_nul, str_equal, str_is_blank};
use crate::EntityId;

verus! {

pub type RemoteGrantId = u64;

pub const MAX_REMOTE_SELECTED_ENTITY_IDS: usize = 1024;

pub const MAX_ENDPOINT_BYTES: usize = 2048;

pub const MAX_MODEL_BYTES: usize = 256;

/// Largest remote context payload any grant may allow.
pub const MAX_REMOTE_CONTEXT_BYTES: usize = 262144;

/// A project identity: the 128 bits of a random (version 4) UUID.
#[derive(Clone, Copy, Debug, PartialEq, Eq, PartialOrd, Ord, Hash, Structural)]
pub struct ProjectId(pub u128);

/// The 128 bits of a version-4 UUID: version nibble 4 and the RFC 4122
/// variant bits `10`.
pub open spec fn uuid_v4_bits(bits: u128) -> bool {
    (bits >> 76u128) & 0xfu128 == 4u128 && (bits >> 62u128) & 0x3u128 == 2u128
}

/// Draws a fresh random version-4 UUID with `uuid::Uuid::new_v4` and returns
/// its bits, big-endian, through `as_u128`. The contract claims only the
/// version and variant bits that `new_v4` sets; the other 122 bits are random.
/// `new_v4` panics only when the operating system's random source fails,
/// which no argument could rule out.
#[verifier::external_body]
fn random_uuid_bits() -> (bits: u128)
    ensures
        uuid_v4_bits(bits),
{
    uuid::Uuid::new_v4().as_u128()
}

impl ProjectId {
    /// A fresh random project id: the bits of a random version-4 UUID.
    pub fn new() -> (id: Self)
        ensures
            uuid_v4_bits(id.0),
    {
        ProjectId(random_uuid_bits())
    }
}

/// A category of project data that may leave the machine.
#[derive(Clone, Copy, Debug, PartialEq, Eq, PartialOrd, Ord, Hash, Structural)]
pub enum RemoteDataCategory {
    DocumentSummary,
    EntityGeometry,
    Parameters,
    Constraints,
    History,
}

/// Which objects a grant covers.
pub enum RemoteObjectScope {
    ProjectSummary,
    /// Selected entity ids, strictly increasing.
    SelectedEntities { entity_ids: Vec<EntityId> },
}

/// Strictly increasing ids (a set in its canonical order).
pub open spec fn ids_increasing(s: Seq<u64>) -> bool {
    forall|i: int, j: int| 0 <= i < j < s.len() ==> s[i] < s[j]
}

/// Inserts `id` into strictly increasing ids unless it is there already.
pub fn insert_id(ids: &mut Vec<u64>, id: u64)
    requires
        ids_increasing(old(ids)@),
    ensures
        ids_increasing(final(ids)@),
        final(ids)@.to_set() == old(ids)@.to_set().insert(id),
{
    let ghost before = ids@;
    let mut k: usize = 0;
    while k < ids.len() && ids[k] < id
        invariant
            k <= ids@.len(),
            ids@ == before,
            forall|j: int| 0 <= j < k ==> before[j] < id,
        decreases ids@.len() - k,
    {
        k += 1;
    }
    if k < ids.len() && ids[k] == id {
        proof {
            assert(before.to_set().insert(id) =~= before.to_set()) by {
                assert(before[k as int] == id);
            }
        }
        return;
    }
    ids.insert(k, id);
    proof {
        let s = ids@;
        assert(s == before.insert(k as int, id));
        assert forall|i: int, j: int| 0 <= i < j < s.len() implies s[i] < s[j] by {
            if i < k && j < k {
                assert(s[i] == before[i] && s[j] == before[j]);
            } else if i < k && j == k {
                assert(s[i] == before[i]);
            } else if i < k {
                assert(s[i] == before[i] && s[j] == before[j - 1]);
            } else if i == k {
                assert(s[j] == before[j - 1]);
                assert(before[k as int] > id);
            } else {
                assert(s[i] == before[i - 1] && s[j] == before[j - 1]);
            }
        }
        assert forall|x: u64| s.to_set().contains(x) <==> before.to_set().insert(id).contains(x) by {
            if s.contains(x) {
                let i = choose|i: int| 0 <= i < s.len() && s[i] == x;
                if i < k {
                    assert(before[i] == x);
                } else if i > k {
                    assert(before[i - 1] == x);
                }
            }
            if before.contains(x) {
                let i = choose|i: int| 0 <= i < before.len() && before[i] == x;
                if i < k {
                    assert(s[i] == x);
                } else {
                    assert(s[i + 1] == x);
                }
            }
            if x == id {
                assert(s[k as int] == x);
            }
        }
        assert(s.to_set() =~= before.to_set().insert(id));
    }
}

/// Whether `id` is among strictly increasing ids.
pub fn contains_id(ids: &Vec<u64>, id: u64) -> (r: bool)
    ensures
        r == ids@.contains(id),
{
    let mut i: usize = 0;
    while i < ids.len()
        invariant
            i <= ids@.len(),
            forall|j: int| 0 <= j < i ==> ids@[j] != id,
        decreases ids@.len() - i,
    {
        if ids[i] == id {
            return true;
        }
        i += 1;
    }
    false
}

impl RemoteObjectScope {
    /// The selected ids, or none for the summary scope.
    pub open spec fn selected(self) -> Set<EntityId> {
        match self {
            RemoteObjectScope::ProjectSummary => Set::empty(),
            RemoteObjectScope::SelectedEntities { entity_ids } => entity_ids@.to_set(),
        }
    }

    /// Ids are kept strictly increasing.
    pub open spec fn well_formed(self) -> bool {
        match self {
            RemoteObjectScope::ProjectSummary => true,
            RemoteObjectScope::SelectedEntities { entity_ids } => ids_increasing(entity_ids@),
        }
    }

    /// The summary scope when nothing is selected, otherwise exactly the selection.
    pub fn from_selected_entities(entity_ids: &Vec<EntityId>) -> (scope: Self)
        ensures
            scope.well_formed(),
            entity_ids@.len() == 0 <==> scope is ProjectSummary,
            scope.selected() == entity_ids@.to_set(),
    {
        let mut ids: Vec<EntityId> = Vec::new();
        let mut i: usize = 0;
        while i < entity_ids.len()
            invariant
                i <= entity_ids@.len(),
                ids_increasing(ids@),
                ids@.to_set() == entity_ids@.take(i as int).to_set(),
                ids@.len() == 0 ==> i == 0,
            decreases entity_ids@.len() - i,
        {
            insert_id(&mut ids, entity_ids[i]);
            proof {
                let t = entity_ids@.take(i + 1);
                assert(t =~= entity_ids@.take(i as int).push(entity_ids@[i as int]));
                assert(t.to_set() =~= entity_ids@.take(i as int).to_set().insert(entity_ids@[i as int])) by {
                    assert forall|x: u64| t.to_set().contains(x) <==> entity_ids@.take(i as int).to_set().insert(entity_ids@[i as int]).contains(x) by {
                        if t.contains(x) {
                            let k = choose|k: int| 0 <= k < t.len() && t[k] == x;
                            if k < i {
                                assert(entity_ids@.take(i as int)[k] == x);
                            }
                        }
                        if entity_ids@.take(i as int).contains(x) {
                            let k = choose|k: int| 0 <= k < i && entity_ids@.take(i as int)[k] == x;
                            assert(t[k] == x);
                        }
                        if x == entity_ids@[i as int] {
                            assert(t[i as int] == x);
                        }
                    }
                }
                assert(ids@.to_set().contains(entity_ids@[i as int]));
                assert(ids@.len() > 0);
            }
            i += 1;
        }
        proof {
            assert(entity_ids@.take(entity_ids@.len() as int) =~= entity_ids@);
            if ids@.len() == 0 {
                assert(entity_ids@.to_set() =~= Set::<u64>::empty());
            }
            if entity_ids@.len() == 0 && ids@.len() > 0 {
                assert(ids@.to_set().contains(ids@[0]));
                assert(entity_ids@.take(0).to_set() =~= Set::<u64>::empty());
            }
        }
        if ids.len() == 0 {
            RemoteObjectScope::ProjectSummary
        } else {
            RemoteObjectScope::SelectedEntities { entity_ids: ids }
        }
    }

    pub open spec fn permits_spec(self, selected: Seq<EntityId>) -> bool {
        match self {
            RemoteObjectScope::ProjectSummary => selected.len() == 0,
            RemoteObjectScope::SelectedEntities { entity_ids } => forall|i: int|
                0 <= i < selected.len() ==> entity_ids@.contains(#[trigger] selected[i]),
        }
    }

    /// The summary scope permits only an empty selection; a selection scope
    /// permits any selection inside it.
    pub fn permits(&self, selected_entity_ids: &[EntityId]) -> (r: bool)
        ensures
            r == self.permits_spec(selected_entity_ids@),
    {
        match self {
            RemoteObjectScope::ProjectSummary => selected_entity_ids.len() == 0,
            RemoteObjectScope::SelectedEntities { entity_ids } => {
                let mut i: usize = 0;
                while i < selected_entity_ids.len()
                    invariant
                        i <= selected_entity_ids@.len(),
                        self.scope_view() == Some(entity_ids@),
                        forall|j: int|
                            0 <= j < i ==> entity_ids@.contains(#[trigger] selected_entity_ids@[j]),
                    decreases selected_entity_ids@.len() - i,
                {
                    if !contains_id(entity_ids, selected_entity_ids[i]) {
                        proof {
                            assert(!entity_ids@.contains(selected_entity_ids@[i as int]));
                            assert(!self.permits_spec(selected_entity_ids@));
                        }
                        return false;
                    }
                    i += 1;
                }
                true
            },
        }
    }

    pub open spec fn scope_valid(self) -> bool {
        match self {
            RemoteObjectScope::ProjectSummary => true,
            RemoteObjectScope::SelectedEntities { entity_ids } => 1 <= entity_ids@.len()
                <= MAX_REMOTE_SELECTED_ENTITY_IDS,
        }
    }

    /// A selection scope must name between 1 and 1024 entities.
    pub fn validate(&self) -> (r: Result<(), RemotePolicyError>)
        ensures
            r is Ok <==> self.scope_valid(),
            r matches Err(e) ==> e matches RemotePolicyError::InvalidGrant(m) && m@
                == "selected-entity scope must contain between 1 and 1024 identifiers"@,
    {
        match self {
            RemoteObjectScope::ProjectSummary => Ok(()),
            RemoteObjectScope::SelectedEntities { entity_ids } => {
                if entity_ids.len() == 0 || entity_ids.len() > MAX_REMOTE_SELECTED_ENTITY_IDS {
                    Err(
                        RemotePolicyError::InvalidGrant(
                            "selected-entity scope must contain between 1 and 1024 identifiers".to_owned(),
                        ),
                    )
                } else {
                    Ok(())
                }
            },
        }
    }

    /// A copy of this scope.
    pub fn copy(&self) -> (c: Self)
        ensures
            c.selected() == self.selected(),
            c.scope_view() == self.scope_view(),
            c.well_formed() == self.well_formed(),
            c is ProjectSummary <==> self is ProjectSummary,
            c.scope_valid() == self.scope_valid(),
            forall|s: Seq<EntityId>| c.permits_spec(s) == self.permits_spec(s),
    {
        match self {
            RemoteObjectScope::ProjectSummary => RemoteObjectScope::ProjectSummary,
            RemoteObjectScope::SelectedEntities { entity_ids } => {
                let copied = entity_ids.clone();
                proof {
                    assert(copied@ =~= entity_ids@);
                }
                RemoteObjectScope::SelectedEntities { entity_ids: copied }
            },
        }
    }
}

/// What a remote policy error reports, as plain values.
pub enum PolicyFault {
    GrantMissing(RemoteGrantId),
    GrantAlreadyRevoked(RemoteGrantId),
    InvalidGrant(Seq<char>),
    InvalidLedger(Seq<char>),
    IdSpaceExhausted,
}

pub enum RemotePolicyError {
    GrantMissing(RemoteGrantId),
    GrantAlreadyRevoked(RemoteGrantId),
    InvalidGrant(String),
    InvalidLedger(String),
    IdSpaceExhausted,
}

impl View for RemotePolicyError {
    type V = PolicyFault;

    open spec fn view(&self) -> PolicyFault {
        match self {
            RemotePolicyError::GrantMissing(id) => PolicyFault::GrantMissing(*id),
            RemotePolicyError::GrantAlreadyRevoked(id) => PolicyFault::GrantAlreadyRevoked(*id),
            RemotePolicyError::InvalidGrant(m) => PolicyFault::InvalidGrant(m@),
            RemotePolicyError::InvalidLedger(m) => PolicyFault::InvalidLedger(m@),
            RemotePolicyError::IdSpaceExhausted => PolicyFault::IdSpaceExhausted,
        }
    }
}

/// A result with its error taken by view.
pub open spec fn fault_view<T>(r: Result<T, RemotePolicyError>) -> Result<T, PolicyFault> {
    match r {
        Ok(v) => Ok(v),
        Err(e) => Err(e@),
    }
}

/// A grant, as plain values.
pub struct GrantView {
    pub id: RemoteGrantId,
    pub project_id: u128,
    pub endpoint: Seq<char>,
    pub model: Seq<char>,
    pub categories: Seq<RemoteDataCategory>,
    pub capabilities: Seq<Capability>,
    pub scope: Option<Seq<EntityId>>,
    pub max_payload_bytes: usize,
    pub granted_at: u64,
    pub expires_at: Option<u64>,
    pub revoked_at: Option<u64>,
}

impl RemoteObjectScope {
    /// `None` for the summary scope, else the selected ids.
    pub open spec fn scope_view(self) -> Option<Seq<EntityId>> {
        match self {
            RemoteObjectScope::ProjectSummary => None,
            RemoteObjectScope::SelectedEntities { entity_ids } => Some(entity_ids@),
        }
    }

    /// `==` on scopes.
    pub fn same_as(&self, other: &Self) -> (r: bool)
        ensures
            r == (self.scope_view() == other.scope_view()),
    {
        match (self, other) {
            (RemoteObjectScope::ProjectSummary, RemoteObjectScope::ProjectSummary) => true,
            (
                RemoteObjectScope::SelectedEntities { entity_ids: a },
                RemoteObjectScope::SelectedEntities { entity_ids: b },
            ) => {
                if a.len() != b.len() {
                    return false;
                }
                let mut i: usize = 0;
                while i < a.len()
                    invariant
                        i <= a@.len() == b@.len(),
                        self.scope_view() == Some(a@),
                        other.scope_view() == Some(b@),
                        forall|j: int| 0 <= j < i ==> a@[j] == b@[j],
                    decreases a@.len() - i,
                {
                    if a[i] != b[i] {
                        proof {
                            assert(a@[i as int] != b@[i as int]);
                            assert(a@ != b@);
                            assert(self.scope_view() != other.scope_view());
                        }
                        return false;
                    }
                    i += 1;
                }
                proof {
                    assert(a@ =~= b@);
                }
                true
            },
            _ => false,
        }
    }
}

/// A request to grant remote access; the policy assigns the id.
pub struct RemoteAccessGrantRequest {
    pub endpoint: String,
    pub model: String,
    pub allowed_data_categories: Vec<RemoteDataCategory>,
    pub allowed_capabilities: Vec<Capability>,
    pub object_scope: RemoteObjectScope,
    pub max_payload_bytes: usize,
    pub granted_at_unix_seconds: u64,
    pub expires_at_unix_seconds: Option<u64>,
}

/// One attempted remote access, to be held against a grant.
pub struct RemoteAccessCheck<'a> {
    pub project_id: ProjectId,
    pub endpoint: &'a str,
    pub model: &'a str,
    pub data_categories: &'a [RemoteDataCategory],
    pub capabilities: &'a [Capability],
    pub selected_entity_ids: &'a [EntityId],
    pub payload_bytes: usize,
    pub unix_seconds: u64,
}

/// A recorded grant of remote access.
pub struct RemoteAccessGrant {
    pub id: RemoteGrantId,
    pub project_id: ProjectId,
    pub endpoint: String,
    pub model: String,
    pub allowed_data_categories: Vec<RemoteDataCategory>,
    pub allowed_capabilities: Vec<Capability>,
    pub object_scope: RemoteObjectScope,
    pub max_payload_bytes: usize,
    pub granted_at_unix_seconds: u64,
    pub expires_at_unix_seconds: Option<u64>,
    pub revoked_at_unix_seconds: Option<u64>,
}

impl View for RemoteAccessGrant {
    type V = GrantView;

    open spec fn view(&self) -> GrantView {
        GrantView {
            id: self.id,
            project_id: self.project_id.0,
            endpoint: self.endpoint@,
            model: self.model@,
            categories: self.allowed_data_categories@,
            capabilities: self.allowed_capabilities@,
            scope: self.object_scope.scope_view(),
            max_payload_bytes: self.max_payload_bytes,
            granted_at: self.granted_at_unix_seconds,
            expires_at: self.expires_at_unix_seconds,
            revoked_at: self.revoked_at_unix_seconds,
        }
    }
}

/// Whether a grant is in force at `t`: granted, not yet expired, not yet revoked.
pub open spec fn active_at(g: GrantView, t: u64) -> bool {
    &&& t >= g.granted_at
    &&& (g.expires_at matches Some(e) ==> t < e)
    &&& (g.revoked_at matches Some(r) ==> t < r)
}

/// Every item of `a` occurs in `b`.
pub open spec fn all_in<T>(a: Seq<T>, b: Seq<T>) -> bool {
    forall|i: int| 0 <= i < a.len() ==> b.contains(#[trigger] a[i])
}

fn categories_within(a: &[RemoteDataCategory], b: &[RemoteDataCategory]) -> (r: bool)
    ensures
        r == all_in(a@, b@),
{
    let mut i: usize = 0;
    while i < a.len()
        invariant
            i <= a@.len(),
            forall|j: int| 0 <= j < i ==> b@.contains(#[trigger] a@[j]),
        decreases a@.len() - i,
    {
        let mut found = false;
        let mut k: usize = 0;
        while k < b.len()
            invariant
                i < a@.len(),
                k <= b@.len(),
                found == (exists|m: int| 0 <= m < k && b@[m] == a@[i as int]),
            decreases b@.len() - k,
        {
            if b[k] == a[i] {
                found = true;
            }
            k += 1;
        }
        if !found {
            proof {
                if b@.contains(a@[i as int]) {
                    let m = choose|m: int| 0 <= m < b@.len() && b@[m] == a@[i as int];
                    assert(b@[m] == a@[i as int]);
                }
                assert(!b@.contains(a@[i as int]));
            }
            return false;
        }
        i += 1;
    }
    true
}

fn capabilities_within(a: &[Capability], b: &[Capability]) -> (r: bool)
    ensures
        r == all_in(a@, b@),
{
    let mut i: usize = 0;
    while i < a.len()
        invariant
            i <= a@.len(),
            forall|j: int| 0 <= j < i ==> b@.contains(#[trigger] a@[j]),
        decreases a@.len() - i,
    {
        let mut found = false;
        let mut k: usize = 0;
        while k < b.len()
            invariant
                i < a@.len(),
                k <= b@.len(),
                found == (exists|m: int| 0 <= m < k && b@[m] == a@[i as int]),
            decreases b@.len() - k,
        {
            if b[k] == a[i] {
                found = true;
            }
            k += 1;
        }
        if !found {
            proof {
                if b@.contains(a@[i as int]) {
                    let m = choose|m: int| 0 <= m < b@.len() && b@[m] == a@[i as int];
                    assert(b@[m] == a@[i as int]);
                }
                assert(!b@.contains(a@[i as int]));
            }
            return false;
        }
        i += 1;
    }
    true
}

/// Text that a grant stores: not blank, at most `max` UTF-8 bytes, no NUL.
pub open spec fn text_valid(v: Seq<char>, max: usize) -> bool {
    !is_blank(v) && utf8(v).len() <= max && !v.contains('\0')
}

pub open spec fn text_message(label: Seq<char>) -> Seq<char> {
    label + " must be non-empty, bounded UTF-8 without NUL"@
}

/// Checks one text field of a grant.
pub fn validate_text(label: &str, value: &str, max_bytes: usize) -> (r: Result<(), RemotePolicyError>)
    ensures
        fault_view(r) == (if text_valid(value@, max_bytes) {
            Ok(())
        } else {
            Err(PolicyFault::InvalidGrant(text_message(label@)))
        }),
{
    if str_is_blank(value) || value.as_bytes().len() > max_bytes || str_contains_nul(value) {
        let mut m = String::new();
        push_str(&mut m, label);
        push_str(&mut m, " must be non-empty, bounded UTF-8 without NUL");
        return Err(RemotePolicyError::InvalidGrant(m));
    }
    Ok(())
}

/// What `validate` finds wrong with a grant for `project`, first fault first.
pub open spec fn grant_problem(g: GrantView, project: u128) -> Option<Seq<char>> {
    if g.project_id != project {
        Some("grant is bound to a different project"@)
    } else if !text_valid(g.endpoint, MAX_ENDPOINT_BYTES) {
        Some(text_message("provider endpoint"@))
    } else if !text_valid(g.model, MAX_MODEL_BYTES) {
        Some(text_message("provider model"@))
    } else if g.categories.len() == 0 {
        Some("grant must allow at least one remote data category"@)
    } else if (g.scope matches Some(ids) && !(1 <= ids.len() <= MAX_REMOTE_SELECTED_ENTITY_IDS)) {
        Some("selected-entity scope must contain between 1 and 1024 identifiers"@)
    } else if g.max_payload_bytes == 0 || g.max_payload_bytes > MAX_REMOTE_CONTEXT_BYTES {
        Some("grant payload limit must be between 1 and 262144 bytes"@)
    } else if (g.expires_at matches Some(e) && e <= g.granted_at) {
        Some("grant expiry must be later than its creation time"@)
    } else if (g.revoked_at matches Some(r) && r < g.granted_at) {
        Some("grant revocation cannot predate its creation"@)
    } else {
        None
    }
}

impl RemoteAccessGrant {
    /// In force at `unix_seconds`.
    pub fn is_active_at(&self, unix_seconds: u64) -> (r: bool)
        ensures
            r == active_at(self@, unix_seconds),
    {
        unix_seconds >= self.granted_at_unix_seconds && match self.expires_at_unix_seconds {
            Some(e) => unix_seconds < e,
            None => true,
        } && match self.revoked_at_unix_seconds {
            Some(r) => unix_seconds < r,
            None => true,
        }
    }

    /// The grant covers the access in every respect and is in force at its time.
    pub fn authorizes(&self, check: RemoteAccessCheck<'_>) -> (r: bool)
        ensures
            r == (self.project_id == check.project_id && self.endpoint@ == check.endpoint@
                && self.model@ == check.model@ && all_in(
                check.data_categories@,
                self.allowed_data_categories@,
            ) && all_in(check.capabilities@, self.allowed_capabilities@)
                && self.object_scope.permits_spec(check.selected_entity_ids@)
                && check.payload_bytes <= self.max_payload_bytes && active_at(
                self@,
                check.unix_seconds,
            )),
    {
        self.project_id.0 == check.project_id.0 && str_equal(self.endpoint.as_str(), check.endpoint)
            && str_equal(self.model.as_str(), check.model) && categories_within(
            check.data_categories,
            self.allowed_data_categories.as_slice(),
        ) && capabilities_within(check.capabilities, self.allowed_capabilities.as_slice())
            && self.object_scope.permits(check.selected_entity_ids) && check.payload_bytes
            <= self.max_payload_bytes && self.is_active_at(check.unix_seconds)
    }

    /// Checks that the grant is well formed and bound to `project_id`.
    pub fn validate(&self, project_id: ProjectId) -> (r: Result<(), RemotePolicyError>)
        ensures
            fault_view(r) == (match grant_problem(self@, project_id.0) {
                Some(m) => Err(PolicyFault::InvalidGrant(m)),
                None => Ok(()),
            }),
    {
        if self.project_id.0 != project_id.0 {
            return Err(
                RemotePolicyError::InvalidGrant("grant is bound to a different project".to_owned()),
            );
        }
        match validate_text("provider endpoint", self.endpoint.as_str(), MAX_ENDPOINT_BYTES) {
            Err(e) => {
                return Err(e);
            },
            Ok(()) => {},
        }
        match validate_text("provider model", self.model.as_str(), MAX_MODEL_BYTES) {
            Err(e) => {
                return Err(e);
            },
            Ok(()) => {},
        }
        if self.allowed_data_categories.len() == 0 {
            return Err(
                RemotePolicyError::InvalidGrant(
                    "grant must allow at least one remote data category".to_owned(),
                ),
            );
        }
        match self.object_scope.validate() {
            Err(e) => {
                return Err(e);
            },
            Ok(()) => {},
        }
        if self.max_payload_bytes == 0 || self.max_payload_bytes > MAX_REMOTE_CONTEXT_BYTES {
            return Err(
                RemotePolicyError::InvalidGrant(
                    "grant payload limit must be between 1 and 262144 bytes".to_owned(),
                ),
            );
        }
        match self.expires_at_unix_seconds {
            Some(e) => {
                if e <= self.granted_at_unix_seconds {
                    return Err(
                        RemotePolicyError::InvalidGrant(
                            "grant expiry must be later than its creation time".to_owned(),
                        ),
                    );
                }
            },
            None => {},
        }
        match self.revoked_at_unix_seconds {
            Some(r) => {
                if r < self.granted_at_unix_seconds {
                    return Err(
                        RemotePolicyError::InvalidGrant(
                            "grant revocation cannot predate its creation".to_owned(),
                        ),
                    );
                }
            },
            None => {},
        }
        Ok(())
    }

    /// A copy with the same view.
    pub fn copy(&self) -> (c: Self)
        ensures
            c@ == self@,
    {
        let cats = self.allowed_data_categories.clone();
        let caps = self.allowed_capabilities.clone();
        proof {
            assert(cats@ =~= self.allowed_data_categories@);
            assert(caps@ =~= self.allowed_capabilities@);
        }
        RemoteAccessGrant {
            id: self.id,
            project_id: self.project_id,
            endpoint: self.endpoint.clone(),
            model: self.model.clone(),
            allowed_data_categories: cats,
            allowed_capabilities: caps,
            object_scope: self.object_scope.copy(),
            max_payload_bytes: self.max_payload_bytes,
            granted_at_unix_seconds: self.granted_at_unix_seconds,
            expires_at_unix_seconds: self.expires_at_unix_seconds,
            revoked_at_unix_seconds: self.revoked_at_unix_seconds,
        }
    }

    /// `==` on grants.
    pub fn same_as(&self, other: &Self) -> (r: bool)
        ensures
            r == (self@ == other@),
    {
        let r = self.id == other.id && self.project_id.0 == other.project_id.0 && str_equal(
            self.endpoint.as_str(),
            other.endpoint.as_str(),
        ) && str_equal(self.model.as_str(), other.model.as_str()) && same_categories(
            self.allowed_data_categories.as_slice(),
            other.allowed_data_categories.as_slice(),
        ) && same_capabilities(
            self.allowed_capabilities.as_slice(),
            other.allowed_capabilities.as_slice(),
        ) && self.object_scope.same_as(&other.object_scope) && self.max_payload_bytes
            == other.max_payload_bytes && self.granted_at_unix_seconds
            == other.granted_at_unix_seconds && self.expires_at_unix_seconds
            == other.expires_at_unix_seconds && self.revoked_at_unix_seconds
            == other.revoked_at_unix_seconds;
        r
    }
}

fn same_categories(a: &[RemoteDataCategory], b: &[RemoteDataCategory]) -> (r: bool)
    ensures
        r == (a@ == b@),
{
    if a.len() != b.len() {
        return false;
    }
    let mut i: usize = 0;
    while i < a.len()
        invariant
            i <= a@.len() == b@.len(),
            forall|j: int| 0 <= j < i ==> a@[j] == b@[j],
        decreases a@.len() - i,
    {
        if a[i] != b[i] {
            return false;
        }
        i += 1;
    }
    proof {
        assert(a@ =~= b@);
    }
    true
}

fn same_capabilities(a: &[Capability], b: &[Capability]) -> (r: bool)
    ensures
        r == (a@ == b@),
{
    if a.len() != b.len() {
        return false;
    }
    let mut i: usize = 0;
    while i < a.len()
        invariant
            i <= a@.len() == b@.len(),
            forall|j: int| 0 <= j < i ==> a@[j] == b@[j],
        decreases a@.len() - i,
    {
        if a[i] != b[i] {
            return false;
        }
        i += 1;
    }
    proof {
        assert(a@ =~= b@);
    }
    true
}

/// A ledger event, as plain values.
pub enum EventView {
    Granted(GrantView),
    Revoked(RemoteGrantId, u64),
}

/// One entry of the append-only remote policy ledger.
pub enum RemotePolicyEvent {
    Granted { grant: RemoteAccessGrant },
    Revoked { grant_id: RemoteGrantId, revoked_at_unix_seconds: u64 },
}

impl View for RemotePolicyEvent {
    type V = EventView;

    open spec fn view(&self) -> EventView {
        match self {
            RemotePolicyEvent::Granted { grant } => EventView::Granted(grant@),
            RemotePolicyEvent::Revoked { grant_id, revoked_at_unix_seconds } => EventView::Revoked(
                *grant_id,
                *revoked_at_unix_seconds,
            ),
        }
    }
}

pub open spec fn events_view(s: Seq<RemotePolicyEvent>) -> Seq<EventView> {
    s.map_values(|e: RemotePolicyEvent| e@)
}

pub open spec fn grants_view(s: Seq<RemoteAccessGrant>) -> Seq<GrantView> {
    s.map_values(|g: RemoteAccessGrant| g@)
}

/// Grants keyed by id; a later grant with the same id replaces an earlier one.
pub open spec fn grant_map(s: Seq<GrantView>) -> Map<RemoteGrantId, GrantView>
    decreases s.len(),
{
    if s.len() == 0 {
        Map::empty()
    } else {
        grant_map(s.drop_last()).insert(s.last().id, s.last())
    }
}

pub open spec fn has_id(s: Seq<GrantView>, id: RemoteGrantId) -> bool {
    exists|k: int| 0 <= k < s.len() && #[trigger] s[k].id == id
}

pub open spec fn ids_unique(s: Seq<GrantView>) -> bool {
    forall|i: int, j: int| 0 <= i < s.len() && 0 <= j < s.len() && i != j ==> s[i].id != s[j].id
}

/// The position of the grant with id `id`.
pub open spec fn grant_index(s: Seq<GrantView>, id: RemoteGrantId) -> int {
    choose|k: int| 0 <= k < s.len() && s[k].id == id
}

pub open spec fn with_revoked(g: GrantView, t: u64) -> GrantView {
    GrantView { revoked_at: Some(t), ..g }
}

pub open spec fn creation_message(id: RemoteGrantId) -> Seq<char> {
    "grant "@ + decimal(id as nat) + " has an invalid creation event"@
}

pub open spec fn revocation_message(id: RemoteGrantId) -> Seq<char> {
    "grant "@ + decimal(id as nat) + " has an invalid revocation event"@
}

/// Applies one ledger event to the replayed grants.
pub open spec fn replay_step(m: Map<RemoteGrantId, GrantView>, e: EventView, project: u128) -> Result<
    Map<RemoteGrantId, GrantView>,
    PolicyFault,
> {
    match e {
        EventView::Granted(g) => match grant_problem(g, project) {
            Some(msg) => Err(PolicyFault::InvalidGrant(msg)),
            None => if g.revoked_at is Some || m.dom().contains(g.id) {
                Err(PolicyFault::InvalidLedger(creation_message(g.id)))
            } else {
                Ok(m.insert(g.id, g))
            },
        },
        EventView::Revoked(id, t) => if !m.dom().contains(id) {
            Err(PolicyFault::GrantMissing(id))
        } else if m[id].revoked_at is Some || t < m[id].granted_at {
            Err(PolicyFault::InvalidLedger(revocation_message(id)))
        } else {
            Ok(m.insert(id, with_revoked(m[id], t)))
        },
    }
}

/// The grants that replaying the ledger from nothing gives, or its first fault.
pub open spec fn replay(events: Seq<EventView>, project: u128) -> Result<
    Map<RemoteGrantId, GrantView>,
    PolicyFault,
>
    decreases events.len(),
{
    if events.len() == 0 {
        Ok(Map::empty())
    } else {
        match replay(events.drop_last(), project) {
            Err(f) => Err(f),
            Ok(m) => replay_step(m, events.last(), project),
        }
    }
}

/// A remote policy, as plain values.
pub struct PolicyView {
    pub grants: Seq<GrantView>,
    pub events: Seq<EventView>,
    pub next_grant_id: RemoteGrantId,
}

/// Grants in strictly increasing id order, all below the next id.
pub open spec fn policy_well_formed(p: PolicyView) -> bool {
    &&& grants_in_id_order(p)
    &&& forall|i: int| 0 <= i < p.grants.len() ==> p.grants[i].id < p.next_grant_id
}

/// The grants are kept in strictly increasing id order, as a map keyed by id
/// lists them.
pub open spec fn grants_in_id_order(p: PolicyView) -> bool {
    forall|i: int, j: int| 0 <= i < j < p.grants.len() ==> p.grants[i].id < p.grants[j].id
}

/// The largest grant id, or 0 without grants.
pub open spec fn last_grant_id(grants: Seq<GrantView>) -> RemoteGrantId {
    if grants.len() == 0 {
        0
    } else {
        grants.last().id
    }
}

/// What `validate` reports for a policy of `project`.
pub open spec fn ledger_check(p: PolicyView, project: u128) -> Result<(), PolicyFault> {
    match replay(p.events, project) {
        Err(f) => Err(f),
        Ok(m) => if m != grant_map(p.grants) {
            Err(PolicyFault::InvalidLedger("remote grant state does not match its event ledger"@))
        } else if last_grant_id(p.grants) == u64::MAX {
            Err(PolicyFault::IdSpaceExhausted)
        } else if p.next_grant_id < last_grant_id(p.grants) + 1 || p.next_grant_id == u64::MAX {
            Err(PolicyFault::InvalidLedger("next remote grant id is invalid"@))
        } else {
            Ok(())
        },
    }
}

/// The grant that a request becomes under id `id` for `project`.
pub open spec fn requested_grant(r: RemoteAccessGrantRequest, id: RemoteGrantId, project: u128) -> GrantView {
    GrantView {
        id,
        project_id: project,
        endpoint: r.endpoint@,
        model: r.model@,
        categories: r.allowed_data_categories@,
        capabilities: r.allowed_capabilities@,
        scope: r.object_scope.scope_view(),
        max_payload_bytes: r.max_payload_bytes,
        granted_at: r.granted_at_unix_seconds,
        expires_at: r.expires_at_unix_seconds,
        revoked_at: None,
    }
}

/// What `create_grant` does with grant `g` (whose id is the next id).
pub open spec fn create_outcome(p: PolicyView, project: u128, g: GrantView) -> (
    PolicyView,
    Result<RemoteGrantId, PolicyFault>,
) {
    if p.next_grant_id == u64::MAX {
        (p, Err(PolicyFault::IdSpaceExhausted))
    } else {
        match grant_problem(g, project) {
            Some(m) => (p, Err(PolicyFault::InvalidGrant(m))),
            None => (
                PolicyView {
                    grants: p.grants.push(g),
                    events: p.events.push(EventView::Granted(g)),
                    next_grant_id: (p.next_grant_id + 1) as u64,
                },
                Ok(p.next_grant_id),
            ),
        }
    }
}

/// What `revoke_grant` does.
pub open spec fn revoke_outcome(p: PolicyView, id: RemoteGrantId, t: u64) -> (
    PolicyView,
    Result<(), PolicyFault>,
) {
    if !has_id(p.grants, id) {
        (p, Err(PolicyFault::GrantMissing(id)))
    } else {
        let k = grant_index(p.grants, id);
        let g = p.grants[k];
        if g.revoked_at is Some {
            (p, Err(PolicyFault::GrantAlreadyRevoked(id)))
        } else if t < g.granted_at {
            (p, Err(PolicyFault::InvalidGrant("grant revocation cannot predate its creation"@)))
        } else {
            (
                PolicyView {
                    grants: p.grants.update(k, with_revoked(g, t)),
                    events: p.events.push(EventView::Revoked(id, t)),
                    next_grant_id: p.next_grant_id,
                },
                Ok(()),
            )
        }
    }
}

/// The grants of one project and the ledger they are replayed from.
pub struct RemoteAccessPolicy {
    grants: Vec<RemoteAccessGrant>,
    events: Vec<RemotePolicyEvent>,
    next_grant_id: RemoteGrantId,
}

impl View for RemoteAccessPolicy {
    type V = PolicyView;

    closed spec fn view(&self) -> PolicyView {
        PolicyView {
            grants: grants_view(self.grants@),
            events: events_view(self.events@),
            next_grant_id: self.next_grant_id,
        }
    }
}

pub proof fn lemma_grant_map_dom(s: Seq<GrantView>, id: RemoteGrantId)
    ensures
        grant_map(s).dom().contains(id) <==> has_id(s, id),
    decreases s.len(),
{
    if s.len() > 0 {
        lemma_grant_map_dom(s.drop_last(), id);
        if has_id(s.drop_last(), id) {
            let k = choose|k: int| 0 <= k < s.drop_last().len() && #[trigger] s.drop_last()[k].id == id;
            assert(s[k].id == id);
        }
        if has_id(s, id) && s.last().id != id {
            let k = choose|k: int| 0 <= k < s.len() && #[trigger] s[k].id == id;
            assert(s.drop_last()[k].id == id);
        }
        if s.last().id == id {
            assert(s[s.len() - 1].id == id);
        }
    }
}

pub proof fn lemma_grant_map_value(s: Seq<GrantView>, k: int)
    requires
        ids_unique(s),
        0 <= k < s.len(),
    ensures
        grant_map(s).dom().contains(s[k].id),
        grant_map(s)[s[k].id] == s[k],
    decreases s.len(),
{
    if k < s.len() - 1 {
        assert(s.drop_last()[k] == s[k]);
        lemma_grant_map_value(s.drop_last(), k);
        assert(s[k].id != s[s.len() - 1].id);
    }
}

pub proof fn lemma_grant_map_push(s: Seq<GrantView>, g: GrantView)
    ensures
        grant_map(s.push(g)) == grant_map(s).insert(g.id, g),
{
    assert(s.push(g).drop_last() =~= s);
}

pub proof fn lemma_grant_map_update(s: Seq<GrantView>, k: int, g: GrantView)
    requires
        ids_unique(s),
        0 <= k < s.len(),
        g.id == s[k].id,
    ensures
        grant_map(s.update(k, g)) =~= grant_map(s).insert(g.id, g),
    decreases s.len(),
{
    let u = s.update(k, g);
    if k == s.len() - 1 {
        assert(u.drop_last() =~= s.drop_last());
    } else {
        assert(u.drop_last() =~= s.drop_last().update(k, g));
        lemma_grant_map_update(s.drop_last(), k, g);
        assert(s.last().id != g.id);
    }
}

pub proof fn lemma_grant_map_len(s: Seq<GrantView>)
    requires
        ids_unique(s),
    ensures
        grant_map(s).dom().finite(),
        grant_map(s).dom().len() == s.len(),
    decreases s.len(),
{
    if s.len() > 0 {
        lemma_grant_map_len(s.drop_last());
        lemma_grant_map_dom(s.drop_last(), s.last().id);
        if has_id(s.drop_last(), s.last().id) {
            let k = choose|k: int|
                0 <= k < s.drop_last().len() && #[trigger] s.drop_last()[k].id == s.last().id;
            assert(s[k].id == s[s.len() - 1].id);
        }
    }
}

/// Two grant lists without repeated ids give the same map exactly when they
/// are equally long and each grant of one occurs in the other.
pub proof fn lemma_grant_map_eq(s: Seq<GrantView>, t: Seq<GrantView>)
    requires
        ids_unique(s),
        ids_unique(t),
    ensures
        (grant_map(s) == grant_map(t)) <==> (s.len() == t.len() && forall|i: int|
            #![trigger s[i]]
            0 <= i < s.len() ==> exists|k: int| 0 <= k < t.len() && #[trigger] t[k] == s[i]),
{
    lemma_grant_map_len(s);
    lemma_grant_map_len(t);
    if grant_map(s) == grant_map(t) {
        assert forall|i: int| #![trigger s[i]] 0 <= i < s.len() implies exists|k: int|
            0 <= k < t.len() && #[trigger] t[k] == s[i] by {
            lemma_grant_map_value(s, i);
            lemma_grant_map_dom(t, s[i].id);
            let k = choose|k: int| 0 <= k < t.len() && #[trigger] t[k].id == s[i].id;
            lemma_grant_map_value(t, k);
        }
    }
    if s.len() == t.len() && forall|i: int|
        #![trigger s[i]]
        0 <= i < s.len() ==> exists|k: int| 0 <= k < t.len() && #[trigger] t[k] == s[i] {
        assert forall|id: RemoteGrantId| #[trigger] grant_map(s).dom().contains(id) implies grant_map(
            t,
        ).dom().contains(id) && grant_map(t)[id] == grant_map(s)[id] by {
            lemma_grant_map_dom(s, id);
            let i = choose|i: int| 0 <= i < s.len() && #[trigger] s[i].id == id;
            let k = choose|k: int| 0 <= k < t.len() && #[trigger] t[k] == s[i];
            lemma_grant_map_value(s, i);
            lemma_grant_map_value(t, k);
        }
        assert(grant_map(s).dom().subset_of(grant_map(t).dom()));
        vstd::set_lib::lemma_subset_equality(grant_map(s).dom(), grant_map(t).dom());
        assert(grant_map(s) =~= grant_map(t));
    }
}

/// Once replaying a prefix fails, replaying the whole ledger fails the same way.
pub proof fn lemma_replay_fault_sticks(events: Seq<EventView>, project: u128, i: int)
    requires
        0 <= i <= events.len(),
        replay(events.take(i), project) is Err,
    ensures
        replay(events, project) == replay(events.take(i), project),
    decreases events.len() - i,
{
    if i == events.len() {
        assert(events.take(i) =~= events);
    } else {
        assert(events.take(i + 1).drop_last() =~= events.take(i));
        lemma_replay_fault_sticks(events, project, i + 1);
    }
}

fn find_grant(v: &Vec<RemoteAccessGrant>, id: RemoteGrantId) -> (r: Option<usize>)
    ensures
        match r {
            Some(k) => k < v@.len() && v@[k as int].id == id,
            None => !has_id(grants_view(v@), id),
        },
{
    let mut k: usize = 0;
    while k < v.len()
        invariant
            k <= v@.len(),
            forall|j: int| 0 <= j < k ==> v@[j].id != id,
        decreases v@.len() - k,
    {
        if v[k].id == id {
            return Some(k);
        }
        k += 1;
    }
    proof {
        if has_id(grants_view(v@), id) {
            let j = choose|j: int| 0 <= j < grants_view(v@).len() && #[trigger] grants_view(v@)[j].id == id;
            assert(v@[j].id == id);
        }
    }
    None
}

/// Whether two grant lists without repeated ids give the same map.
fn same_grants(a: &Vec<RemoteAccessGrant>, b: &Vec<RemoteAccessGrant>) -> (r: bool)
    requires
        ids_unique(grants_view(a@)),
        ids_unique(grants_view(b@)),
    ensures
        r == (grant_map(grants_view(a@)) == grant_map(grants_view(b@))),
{
    let ghost s = grants_view(a@);
    let ghost t = grants_view(b@);
    proof {
        lemma_grant_map_eq(s, t);
    }
    if a.len() != b.len() {
        return false;
    }
    let mut i: usize = 0;
    while i < a.len()
        invariant
            i <= a@.len() == b@.len(),
            s == grants_view(a@),
            t == grants_view(b@),
            ids_unique(s),
            ids_unique(t),
            forall|j: int|
                #![trigger s[j]]
                0 <= j < i ==> exists|k: int| 0 <= k < t.len() && #[trigger] t[k] == s[j],
        decreases a@.len() - i,
    {
        match find_grant(b, a[i].id) {
            None => {
                proof {
                    if exists|k: int| 0 <= k < t.len() && #[trigger] t[k] == s[i as int] {
                        let k = choose|k: int| 0 <= k < t.len() && #[trigger] t[k] == s[i as int];
                        assert(t[k].id == a@[i as int].id);
                    }
                    lemma_grant_map_eq(s, t);
                }
                return false;
            },
            Some(k) => {
                if !a[i].same_as(&b[k]) {
                    proof {
                        if exists|m: int| 0 <= m < t.len() && #[trigger] t[m] == s[i as int] {
                            let m = choose|m: int| 0 <= m < t.len() && #[trigger] t[m] == s[i as int];
                            assert(t[m].id == t[k as int].id);
                        }
                        lemma_grant_map_eq(s, t);
                    }
                    return false;
                }
                assert(t[k as int] == s[i as int]);
            },
        }
        i += 1;
    }
    proof {
        lemma_grant_map_eq(s, t);
    }
    true
}

impl RemoteAccessPolicy {
    /// An empty policy whose first grant gets id 1.
    pub fn new() -> (p: Self)
        ensures
            p@.grants == Seq::<GrantView>::empty(),
            p@.events == Seq::<EventView>::empty(),
            p@.next_grant_id == 1,
            policy_well_formed(p@),
    {
        let p = RemoteAccessPolicy { grants: Vec::new(), events: Vec::new(), next_grant_id: 1 };
        proof {
            assert(grants_view(p.grants@) =~= Seq::<GrantView>::empty());
            assert(events_view(p.events@) =~= Seq::<EventView>::empty());
        }
        p
    }

    /// The grants, in id order.
    pub fn grants(&self) -> (g: &[RemoteAccessGrant])
        ensures
            grants_view(g@) == self@.grants,
    {
        self.grants.as_slice()
    }

    /// The ledger, oldest first.
    pub fn events(&self) -> (e: &[RemotePolicyEvent])
        ensures
            events_view(e@) == self@.events,
    {
        self.events.as_slice()
    }

    /// Records a grant made from `request` under the next id.
    pub fn create_grant(&mut self, project_id: ProjectId, request: RemoteAccessGrantRequest) -> (r:
        Result<RemoteGrantId, RemotePolicyError>)
        requires
            policy_well_formed(old(self)@),
        ensures
            policy_well_formed(final(self)@),
            (final(self)@, fault_view(r)) == create_outcome(
                old(self)@,
                project_id.0,
                requested_grant(request, old(self)@.next_grant_id, project_id.0),
            ),
    {
        let ghost g0 = requested_grant(request, self@.next_grant_id, project_id.0);
        if self.next_grant_id == u64::MAX {
            return Err(RemotePolicyError::IdSpaceExhausted);
        }
        let grant = RemoteAccessGrant {
            id: self.next_grant_id,
            project_id,
            endpoint: request.endpoint,
            model: request.model,
            allowed_data_categories: request.allowed_data_categories,
            allowed_capabilities: request.allowed_capabilities,
            object_scope: request.object_scope,
            max_payload_bytes: request.max_payload_bytes,
            granted_at_unix_seconds: request.granted_at_unix_seconds,
            expires_at_unix_seconds: request.expires_at_unix_seconds,
            revoked_at_unix_seconds: None,
        };
        assert(grant@ == g0);
        match grant.validate(project_id) {
            Err(e) => {
                return Err(e);
            },
            Ok(()) => {},
        }
        let id = grant.id;
        let stored = grant.copy();
        self.next_grant_id = self.next_grant_id + 1;
        self.grants.push(stored);
        self.events.push(RemotePolicyEvent::Granted { grant });
        proof {
            assert(grants_view(self.grants@) =~= grants_view(old(self).grants@).push(g0));
            assert(events_view(self.events@) =~= events_view(old(self).events@).push(
                EventView::Granted(g0),
            ));
        }
        Ok(id)
    }

    /// Marks grant `grant_id` revoked from `revoked_at_unix_seconds` on.
    pub fn revoke_grant(&mut self, grant_id: RemoteGrantId, revoked_at_unix_seconds: u64) -> (r:
        Result<(), RemotePolicyError>)
        requires
            policy_well_formed(old(self)@),
        ensures
            policy_well_formed(final(self)@),
            (final(self)@, fault_view(r)) == revoke_outcome(
                old(self)@,
                grant_id,
                revoked_at_unix_seconds,
            ),
    {
        let ghost p = self@;
        let k = match find_grant(&self.grants, grant_id) {
            None => {
                return Err(RemotePolicyError::GrantMissing(grant_id));
            },
            Some(k) => k,
        };
        proof {
            assert(p.grants[k as int].id == grant_id);
            assert(has_id(p.grants, grant_id));
            let c = grant_index(p.grants, grant_id);
            assert(p.grants[c].id == grant_id);
            if c != k {
                if c < k {
                    assert(p.grants[c].id < p.grants[k as int].id);
                } else {
                    assert(p.grants[k as int].id < p.grants[c].id);
                }
            }
        }
        if self.grants[k].revoked_at_unix_seconds.is_some() {
            return Err(RemotePolicyError::GrantAlreadyRevoked(grant_id));
        }
        if revoked_at_unix_seconds < self.grants[k].granted_at_unix_seconds {
            return Err(
                RemotePolicyError::InvalidGrant(
                    "grant revocation cannot predate its creation".to_owned(),
                ),
            );
        }
        let mut updated = self.grants[k].copy();
        updated.revoked_at_unix_seconds = Some(revoked_at_unix_seconds);
        self.grants.set(k, updated);
        self.events.push(
            RemotePolicyEvent::Revoked { grant_id, revoked_at_unix_seconds },
        );
        proof {
            assert(grants_view(self.grants@) =~= p.grants.update(
                k as int,
                with_revoked(p.grants[k as int], revoked_at_unix_seconds),
            ));
            assert(events_view(self.events@) =~= p.events.push(
                EventView::Revoked(grant_id, revoked_at_unix_seconds),
            ));
        }
        Ok(())
    }

    /// Replays the ledger and checks that it gives exactly the stored grants
    /// and that the next id is past all of them.
    pub fn validate(&self, project_id: ProjectId) -> (r: Result<(), RemotePolicyError>)
        requires
            grants_in_id_order(self@),
        ensures
            fault_view(r) == ledger_check(self@, project_id.0),
    {
        let ghost ev = events_view(self.events@);
        let ghost project = project_id.0;
        let mut replayed: Vec<RemoteAccessGrant> = Vec::new();
        proof {
            assert(ev.take(0) =~= Seq::<EventView>::empty());
            assert(grants_view(replayed@) =~= Seq::<GrantView>::empty());
        }
        let mut i: usize = 0;
        while i < self.events.len()
            invariant
                i <= self.events@.len(),
                ev == events_view(self.events@),
                project == project_id.0,
                ids_unique(grants_view(replayed@)),
                replay(ev.take(i as int), project) == Ok::<
                    Map<RemoteGrantId, GrantView>,
                    PolicyFault,
                >(grant_map(grants_view(replayed@))),
            decreases self.events@.len() - i,
        {
            let ghost before = grants_view(replayed@);
            proof {
                assert(ev.take(i + 1).drop_last() =~= ev.take(i as int));
                assert(ev.take(i + 1).last() == ev[i as int]);
            }
            match &self.events[i] {
                RemotePolicyEvent::Granted { grant } => {
                    match grant.validate(project_id) {
                        Err(e) => {
                            proof {
                                lemma_replay_fault_sticks(ev, project, i + 1);
                            }
                            return Err(e);
                        },
                        Ok(()) => {},
                    }
                    let seen = find_grant(&replayed, grant.id);
                    proof {
                        lemma_grant_map_dom(before, grant.id);
                        if let Some(k) = seen {
                            assert(before[k as int].id == grant.id);
                        }
                    }
                    if grant.revoked_at_unix_seconds.is_some() || seen.is_some() {
                        let mut m = String::new();
                        push_str(&mut m, "grant ");
                        push_decimal(&mut m, grant.id);
                        push_str(&mut m, " has an invalid creation event");
                        proof {
                            assert(m@ =~= creation_message(grant.id));
                            lemma_replay_fault_sticks(ev, project, i + 1);
                        }
                        return Err(RemotePolicyError::InvalidLedger(m));
                    }
                    replayed.push(grant.copy());
                    proof {
                        assert(grants_view(replayed@) =~= before.push(grant@));
                        lemma_grant_map_push(before, grant@);
                        assert forall|a: int, b: int|
                            0 <= a < grants_view(replayed@).len() && 0 <= b < grants_view(
                                replayed@,
                            ).len() && a != b implies grants_view(replayed@)[a].id
                            != grants_view(replayed@)[b].id by {
                            if a == before.len() {
                                assert(before[b].id != grant.id);
                            } else if b == before.len() {
                                assert(before[a].id != grant.id);
                            }
                        }
                    }
                },
                RemotePolicyEvent::Revoked { grant_id, revoked_at_unix_seconds } => {
                    let found = find_grant(&replayed, *grant_id);
                    proof {
                        lemma_grant_map_dom(before, *grant_id);
                    }
                    let k = match found {
                        None => {
                            proof {
                                lemma_replay_fault_sticks(ev, project, i + 1);
                            }
                            return Err(RemotePolicyError::GrantMissing(*grant_id));
                        },
                        Some(k) => k,
                    };
                    proof {
                        lemma_grant_map_value(before, k as int);
                    }
                    if replayed[k].revoked_at_unix_seconds.is_some() || *revoked_at_unix_seconds
                        < replayed[k].granted_at_unix_seconds {
                        let mut m = String::new();
                        push_str(&mut m, "grant ");
                        push_decimal(&mut m, *grant_id);
                        push_str(&mut m, " has an invalid revocation event");
                        proof {
                            assert(m@ =~= revocation_message(*grant_id));
                            lemma_replay_fault_sticks(ev, project, i + 1);
                        }
                        return Err(RemotePolicyError::InvalidLedger(m));
                    }
                    let mut updated = replayed[k].copy();
                    updated.revoked_at_unix_seconds = Some(*revoked_at_unix_seconds);
                    replayed.set(k, updated);
                    proof {
                        let w = with_revoked(before[k as int], *revoked_at_unix_seconds);
                        assert(grants_view(replayed@) =~= before.update(k as int, w));
                        lemma_grant_map_update(before, k as int, w);
                    }
                },
            }
            i += 1;
        }
        proof {
            assert(ev.take(self.events@.len() as int) =~= ev);
        }
        if !same_grants(&replayed, &self.grants) {
            return Err(
                RemotePolicyError::InvalidLedger(
                    "remote grant state does not match its event ledger".to_owned(),
                ),
            );
        }
        let last: u64 = if self.grants.len() == 0 {
            0
        } else {
            self.grants[self.grants.len() - 1].id
        };
        if last == u64::MAX {
            return Err(RemotePolicyError::IdSpaceExhausted);
        }
        if self.next_grant_id < last + 1 || self.next_grant_id == u64::MAX {
            return Err(RemotePolicyError::InvalidLedger("next remote grant id is invalid".to_owned()));
        }
        Ok(())
    }
}

/// Grants in strictly increasing id order never repeat an id.
pub proof fn lemma_well_formed_unique(p: PolicyView)
    requires
        policy_well_formed(p),
    ensures
        ids_unique(p.grants),
{
    assert forall|i: int, j: int|
        0 <= i < p.grants.len() && 0 <= j < p.grants.len() && i != j implies p.grants[i].id
        != p.grants[j].id by {
        if i < j {
            assert(p.grants[i].id < p.grants[j].id);
        } else {
            assert(p.grants[j].id < p.grants[i].id);
        }
    }
}

/// A new policy's ledger checks out for every project.
pub proof fn law_new_ledger_is_valid(project: u128)
    ensures
        ledger_check(
            PolicyView { grants: Seq::empty(), events: Seq::empty(), next_grant_id: 1 },
            project,
        ) is Ok,
{
    assert(grant_map(Seq::<GrantView>::empty()) =~= Map::<RemoteGrantId, GrantView>::empty());
}

/// Creating a grant keeps a ledger that checks out checking out, as long as
/// the id after the new one is not the reserved `u64::MAX`.
pub proof fn law_create_keeps_ledger_valid(
    p: PolicyView,
    project: u128,
    request: RemoteAccessGrantRequest,
)
    requires
        policy_well_formed(p),
        ledger_check(p, project) is Ok,
        create_outcome(p, project, requested_grant(request, p.next_grant_id, project)).1 is Ok,
        p.next_grant_id + 1 != u64::MAX,
    ensures
        ledger_check(
            create_outcome(p, project, requested_grant(request, p.next_grant_id, project)).0,
            project,
        ) is Ok,
{
    let g = requested_grant(request, p.next_grant_id, project);
    let q = create_outcome(p, project, g).0;
    assert(q.events.drop_last() =~= p.events);
    lemma_grant_map_dom(p.grants, g.id);
    if has_id(p.grants, g.id) {
        let k = choose|k: int| 0 <= k < p.grants.len() && #[trigger] p.grants[k].id == g.id;
        assert(p.grants[k].id < p.next_grant_id);
    }
    lemma_grant_map_push(p.grants, g);
}

/// Revoking a grant keeps a ledger that checks out checking out.
pub proof fn law_revoke_keeps_ledger_valid(p: PolicyView, project: u128, id: RemoteGrantId, t: u64)
    requires
        policy_well_formed(p),
        ledger_check(p, project) is Ok,
        revoke_outcome(p, id, t).1 is Ok,
    ensures
        ledger_check(revoke_outcome(p, id, t).0, project) is Ok,
{
    let q = revoke_outcome(p, id, t).0;
    let k = grant_index(p.grants, id);
    let w = with_revoked(p.grants[k], t);
    lemma_well_formed_unique(p);
    assert(q.events.drop_last() =~= p.events);
    lemma_grant_map_value(p.grants, k);
    lemma_grant_map_update(p.grants, k, w);
    assert(q.grants == p.grants.update(k, w));
    assert(last_grant_id(q.grants) == last_grant_id(p.grants)) by {
        if p.grants.len() > 0 {
            assert(q.grants.last().id == p.grants.last().id);
        }
    }
}

/// A grant revoked at `t` is in force at no time from `t` on.
pub proof fn law_revoked_grant_is_inactive(g: GrantView, t: u64, u: u64)
    requires
        t <= u,
    ensures
        !active_at(with_revoked(g, t), u),
{
}


/// One call a policy receives: creating a grant from a request, or revoking
/// grant `id` at time `t`.
pub enum PolicyCall {
    Create(RemoteAccessGrantRequest),
    Revoke(RemoteGrantId, u64),
}

/// The policy after `call`; a refused call leaves it as it was.
pub open spec fn after_call(p: PolicyView, project: u128, call: PolicyCall) -> PolicyView {
    match call {
        PolicyCall::Create(r) => create_outcome(p, project, requested_grant(r, p.next_grant_id, project)).0,
        PolicyCall::Revoke(id, t) => revoke_outcome(p, id, t).0,
    }
}

/// The policy after `calls`, in order.
pub open spec fn after_calls(p: PolicyView, project: u128, calls: Seq<PolicyCall>) -> PolicyView
    decreases calls.len(),
{
    if calls.len() == 0 {
        p
    } else {
        after_call(after_calls(p, project, calls.drop_last()), project, calls.last())
    }
}

pub proof fn lemma_call_keeps_well_formed(p: PolicyView, project: u128, call: PolicyCall)
    requires
        policy_well_formed(p),
        ledger_check(p, project) is Ok,
    ensures
        policy_well_formed(after_call(p, project, call)),
        after_call(p, project, call).next_grant_id <= p.next_grant_id + 1,
{
    match call {
        PolicyCall::Create(r) => {
            let g = requested_grant(r, p.next_grant_id, project);
            let q = create_outcome(p, project, g).0;
            if create_outcome(p, project, g).1 is Ok {
                assert forall|i: int, j: int| 0 <= i < j < q.grants.len() implies q.grants[i].id < q.grants[j].id by {
                    if j == q.grants.len() - 1 {
                        assert(p.grants[i].id < p.next_grant_id);
                    }
                }
            }
        },
        PolicyCall::Revoke(id, t) => {
            let q = revoke_outcome(p, id, t).0;
            if revoke_outcome(p, id, t).1 is Ok {
                let k = grant_index(p.grants, id);
                assert forall|i: int| 0 <= i < q.grants.len() implies q.grants[i].id == p.grants[i].id by {
                    if i == k {
                        assert(q.grants[i] == with_revoked(p.grants[k], t));
                    }
                }
            }
        },
    }
}

/// Whatever sequence of creations and revocations a policy receives, a
/// ledger that checks out keeps checking out, as long as the grant ids do
/// not reach the reserved `u64::MAX`.
pub proof fn law_ledger_stays_valid(p: PolicyView, project: u128, calls: Seq<PolicyCall>)
    requires
        policy_well_formed(p),
        ledger_check(p, project) is Ok,
        p.next_grant_id + calls.len() + 1 < u64::MAX,
    ensures
        policy_well_formed(after_calls(p, project, calls)),
        ledger_check(after_calls(p, project, calls), project) is Ok,
        after_calls(p, project, calls).next_grant_id <= p.next_grant_id + calls.len(),
    decreases calls.len(),
{
    if calls.len() > 0 {
        law_ledger_stays_valid(p, project, calls.drop_last());
        let q = after_calls(p, project, calls.drop_last());
        lemma_call_keeps_well_formed(q, project, calls.last());
        match calls.last() {
            PolicyCall::Create(r) => {
                let g = requested_grant(r, q.next_grant_id, project);
                if create_outcome(q, project, g).1 is Ok {
                    law_create_keeps_ledger_valid(q, project, r);
                }
            },
            PolicyCall::Revoke(id, t) => {
                if revoke_outcome(q, id, t).1 is Ok {
                    law_revoke_keeps_ledger_valid(q, project, id, t);
                }
            },
        }
    }
}

} // verus!
