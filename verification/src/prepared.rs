//! Identities of prepared actions: who proposed an action, its idempotency
//! key, and the record of what the preparation observed.

use vstd::prelude::*;

use crate::digest::{sha256, sha256_digest};
use crate::expression::utf8;
use crate::object::ObjectPrecondition;
use crate::document::CommandError;
use crate::text::{append_bytes, hex_lower, is_hex_char, law_hex_lower_injective, law_hex_lower_shape, to_hex_lower};
use crate::{AgentRunId, CommitId, PromptChangeSetId, TaskId};

verus! {

/// Upper bound on the encoded transaction that an idempotency key covers.
pub const MAX_IDEMPOTENCY_INPUT_BYTES: usize = 67108864;

/// The task, and for agent runs the change set and run, an action belongs to.
#[derive(Clone, Copy, Debug, PartialEq, Eq, Structural)]
pub struct ActionSource {
    pub task_id: TaskId,
    pub change_set_id: Option<PromptChangeSetId>,
    pub agent_run_id: Option<AgentRunId>,
}

impl ActionSource {
    /// A task action recorded before agent runs existed.
    pub fn legacy_task(task_id: TaskId) -> (s: Self)
        ensures
            s == (ActionSource { task_id, change_set_id: None, agent_run_id: None }),
    {
        ActionSource { task_id, change_set_id: None, agent_run_id: None }
    }

    /// An action of one agent run of one change set.
    pub fn for_run(task_id: TaskId, change_set_id: PromptChangeSetId, agent_run_id: AgentRunId) -> (s:
        Self)
        ensures
            s == (ActionSource {
                task_id,
                change_set_id: Some(change_set_id),
                agent_run_id: Some(agent_run_id),
            }),
    {
        ActionSource {
            task_id,
            change_set_id: Some(change_set_id),
            agent_run_id: Some(agent_run_id),
        }
    }

    pub open spec fn run_bound(self) -> bool {
        self.change_set_id is Some && self.agent_run_id is Some
    }

    /// Whether the action is bound to an agent run.
    pub fn is_run_bound(&self) -> (b: bool)
        ensures
            b == self.run_bound(),
    {
        self.change_set_id.is_some() && self.agent_run_id.is_some()
    }
}

/// Eight little-endian bytes of `x` (`u64::to_le_bytes`).
pub open spec fn le_bytes(x: nat, n: nat) -> Seq<u8>
    decreases n,
{
    if n == 0 {
        Seq::empty()
    } else {
        seq![(x % 256) as u8] + le_bytes(x / 256, (n - 1) as nat)
    }
}

fn push_le_u64(out: &mut Vec<u8>, x: u64)
    ensures
        final(out)@ == old(out)@ + le_bytes(x as nat, 8),
{
    let mut v = x;
    let mut i: usize = 0;
    while i < 8
        invariant
            i <= 8,
            out@ + le_bytes(v as nat, (8 - i) as nat) == old(out)@ + le_bytes(x as nat, 8),
        decreases 8 - i,
    {
        let ghost before = out@;
        out.push((v % 256) as u8);
        proof {
            assert(le_bytes(v as nat, (8 - i) as nat) == seq![(v % 256) as u8] + le_bytes(
                (v / 256) as nat,
                (8 - i - 1) as nat,
            ));
            assert(out@ + le_bytes((v / 256) as nat, (8 - i - 1) as nat) =~= before + le_bytes(
                v as nat,
                (8 - i) as nat,
            ));
        }
        v = v / 256;
        i += 1;
    }
    proof {
        assert(le_bytes(v as nat, 0) =~= Seq::<u8>::empty());
        assert(out@ =~= out@ + le_bytes(v as nat, 0));
    }
}

pub open spec fn idempotency_domain(run_bound: bool) -> Seq<char> {
    if run_bound {
        "CADX-ACTION-IDEMPOTENCY\0v3-run-and-pack-bound\0"@
    } else {
        "CADX-ACTION-IDEMPOTENCY\0v3-pack-bound\0"@
    }
}

/// The bytes an idempotency key digests: a domain separator, the Pack lock
/// and state hashes, the action source, and the encoded transaction.
pub open spec fn idempotency_preimage(
    pack_lock_hash: Seq<u8>,
    input_state_hash: Seq<u8>,
    candidate_state_hash: Seq<u8>,
    source: Option<ActionSource>,
    transaction: Seq<u8>,
) -> Seq<u8> {
    let run_bound = source matches Some(s) && s.run_bound();
    let task_id: u64 = match source {
        Some(s) => s.task_id,
        None => 0,
    };
    let run_part = match source {
        Some(s) => if s.run_bound() {
            le_bytes(s.change_set_id->Some_0 as nat, 8) + le_bytes(s.agent_run_id->Some_0 as nat, 8)
        } else {
            Seq::empty()
        },
        None => Seq::empty(),
    };
    utf8(idempotency_domain(run_bound)) + pack_lock_hash + input_state_hash + candidate_state_hash
        + seq![if source is Some {
        1u8
    } else {
        0u8
    }] + le_bytes(task_id as nat, 8) + run_part + transaction
}

/// A digest that identifies one prepared action for replay protection.
#[derive(Clone, Copy, PartialEq, Eq, PartialOrd, Ord)]
pub struct ActionIdempotencyKey([u8; 32]);

impl View for ActionIdempotencyKey {
    type V = Seq<u8>;

    closed spec fn view(&self) -> Seq<u8> {
        self.0@
    }
}

impl ActionIdempotencyKey {
    /// The key of an action from its Pack lock hash, input and candidate
    /// state hashes, source, and JSON-encoded transaction.
    pub fn derive(
        pack_lock_hash: [u8; 32],
        input_state_hash: [u8; 32],
        candidate_state_hash: [u8; 32],
        source: Option<ActionSource>,
        transaction_json: &[u8],
    ) -> (r: Result<Self, String>)
        ensures
            transaction_json@.len() <= MAX_IDEMPOTENCY_INPUT_BYTES <==> r is Ok,
            r matches Ok(key) ==> key@ == sha256(
                idempotency_preimage(
                    pack_lock_hash@,
                    input_state_hash@,
                    candidate_state_hash@,
                    source,
                    transaction_json@,
                ),
            ),
            r matches Err(m) ==> m@
                == "cannot encode prepared action identity: prepared action exceeds the 67108864-byte identity limit"@,
    {
        if transaction_json.len() > MAX_IDEMPOTENCY_INPUT_BYTES {
            return Err(
                "cannot encode prepared action identity: prepared action exceeds the 67108864-byte identity limit".to_owned(),
            );
        }
        let run_bound = match source {
            Some(s) => s.is_run_bound(),
            None => false,
        };
        let mut data: Vec<u8> = Vec::new();
        if run_bound {
            append_bytes(&mut data, "CADX-ACTION-IDEMPOTENCY\0v3-run-and-pack-bound\0".as_bytes());
        } else {
            append_bytes(&mut data, "CADX-ACTION-IDEMPOTENCY\0v3-pack-bound\0".as_bytes());
        }
        append_bytes(&mut data, &pack_lock_hash);
        append_bytes(&mut data, &input_state_hash);
        append_bytes(&mut data, &candidate_state_hash);
        data.push(if source.is_some() { 1u8 } else { 0u8 });
        let task_id = match source {
            Some(s) => s.task_id,
            None => 0,
        };
        push_le_u64(&mut data, task_id);
        let ghost before_run = data@;
        if let Some(s) = source {
            if s.is_run_bound() {
                let change_set = match s.change_set_id {
                    Some(v) => v,
                    None => 0,
                };
                let agent_run = match s.agent_run_id {
                    Some(v) => v,
                    None => 0,
                };
                push_le_u64(&mut data, change_set);
                push_le_u64(&mut data, agent_run);
            }
        }
        append_bytes(&mut data, transaction_json);
        proof {
            assert(data@ =~= idempotency_preimage(
                pack_lock_hash@,
                input_state_hash@,
                candidate_state_hash@,
                source,
                transaction_json@,
            ));
        }
        Ok(ActionIdempotencyKey(sha256_digest(data.as_slice())))
    }

    /// A key from its 32 bytes.
    pub fn from_bytes(bytes: [u8; 32]) -> (key: Self)
        ensures
            key@ == bytes@,
    {
        ActionIdempotencyKey(bytes)
    }

    /// The 32 bytes of the key.
    pub fn to_bytes(self) -> (bytes: [u8; 32])
        ensures
            bytes@ == self@,
    {
        self.0
    }

    /// The key in lower-case hexadecimal.
    pub fn to_hex(self) -> (hex: String)
        ensures
            hex@ == hex_lower(self@),
            hex@.len() == 64,
    {
        to_hex_lower(&self.0)
    }
}

/// What one preparation observed and derived, kept with its commit.
pub struct PreparedActionRecord {
    base_revision: CommitId,
    preconditions: Vec<ObjectPrecondition>,
    pack_lock_hash: [u8; 32],
    input_state_hash: [u8; 32],
    candidate_state_hash: [u8; 32],
    idempotency_key: ActionIdempotencyKey,
}

impl PreparedActionRecord {
    pub closed spec fn spec_base_revision(&self) -> CommitId {
        self.base_revision
    }

    pub closed spec fn spec_preconditions(&self) -> Seq<ObjectPrecondition> {
        self.preconditions@
    }

    pub closed spec fn spec_pack_lock_hash(&self) -> Seq<u8> {
        self.pack_lock_hash@
    }

    pub closed spec fn spec_input_state_hash(&self) -> Seq<u8> {
        self.input_state_hash@
    }

    pub closed spec fn spec_candidate_state_hash(&self) -> Seq<u8> {
        self.candidate_state_hash@
    }

    pub closed spec fn spec_idempotency_key(&self) -> ActionIdempotencyKey {
        self.idempotency_key
    }

    /// A record of the given observations.
    pub fn new(
        base_revision: CommitId,
        preconditions: Vec<ObjectPrecondition>,
        pack_lock_hash: [u8; 32],
        input_state_hash: [u8; 32],
        candidate_state_hash: [u8; 32],
        idempotency_key: ActionIdempotencyKey,
    ) -> (r: Self)
        ensures
            r.spec_base_revision() == base_revision,
            r.spec_preconditions() == preconditions@,
            r.spec_pack_lock_hash() == pack_lock_hash@,
            r.spec_input_state_hash() == input_state_hash@,
            r.spec_candidate_state_hash() == candidate_state_hash@,
            r.spec_idempotency_key() == idempotency_key,
    {
        PreparedActionRecord {
            base_revision,
            preconditions,
            pack_lock_hash,
            input_state_hash,
            candidate_state_hash,
            idempotency_key,
        }
    }

    pub fn base_revision(&self) -> (r: CommitId)
        ensures
            r == self.spec_base_revision(),
    {
        self.base_revision
    }

    pub fn preconditions(&self) -> (r: &[ObjectPrecondition])
        ensures
            r@ == self.spec_preconditions(),
    {
        self.preconditions.as_slice()
    }

    pub fn input_state_hash(&self) -> (r: [u8; 32])
        ensures
            r@ == self.spec_input_state_hash(),
    {
        self.input_state_hash
    }

    pub fn pack_lock_hash(&self) -> (r: [u8; 32])
        ensures
            r@ == self.spec_pack_lock_hash(),
    {
        self.pack_lock_hash
    }

    pub fn candidate_state_hash(&self) -> (r: [u8; 32])
        ensures
            r@ == self.spec_candidate_state_hash(),
    {
        self.candidate_state_hash
    }

    pub fn idempotency_key(&self) -> (r: ActionIdempotencyKey)
        ensures
            r == self.spec_idempotency_key(),
    {
        self.idempotency_key
    }
}

/// Why an action could not be prepared.
pub enum PrepareError {
    Command(CommandError),
    ValidationUnavailable(String),
    ValidationFailed(String),
}

impl From<CommandError> for PrepareError {
    fn from(error: CommandError) -> (e: Self)
        ensures
            e == PrepareError::Command(error),
    {
        PrepareError::Command(error)
    }
}

impl vstd::std_specs::convert::FromSpecImpl<CommandError> for PrepareError {
    open spec fn obeys_from_spec() -> bool {
        true
    }

    open spec fn from_spec(v: CommandError) -> Self {
        PrepareError::Command(v)
    }
}


/// Distinct idempotency keys read as distinct hexadecimal text, and every
/// key reads as 64 lower-case hexadecimal digits.
pub proof fn law_distinct_keys_have_distinct_hex(a: ActionIdempotencyKey, b: ActionIdempotencyKey)
    ensures
        a@ != b@ ==> hex_lower(a@) != hex_lower(b@),
        hex_lower(a@).len() == 64,
        forall|i: int| 0 <= i < 64 ==> is_hex_char(#[trigger] hex_lower(a@)[i]),
{
    law_hex_lower_shape(a@);
    if hex_lower(a@) == hex_lower(b@) {
        law_hex_lower_injective(a@, b@);
    }
}

} // verus!
