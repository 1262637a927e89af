//! The exact semantic dependency set (Pack lock) used to prepare, validate,
//! and replay a project, and its canonical validation.

use vstd::prelude::*;

use crate::capability::Capability;
use crate::order::{
    StrictOrder, bytes_less, bytes_lt, increasing, strictly_sorted_unique, lemma_bytes_lt_irreflexive,
    lemma_bytes_lt_transitive, sort, sorted,
};
use crate::text::{lemma_chars_lt_total, 
    chars_lt, is_blank, lemma_chars_lt_irreflexive, lemma_chars_lt_transitive, push_str,
    str_is_blank, str_less, to_hex_lower, hex_lower, append_bytes, str_equal, is_hex_char,
    law_hex_lower_shape, law_hex_lower_injective,
};
use crate::digest::{sha256, sha256_digest};
use crate::expression::utf8;
use vstd::string::StringSliceAdditionalSpecFns;

verus! {

pub const PACK_LOCK_VERSION: u32 = 1;

pub const PACK_ABI_VERSION: u32 = 1;

pub const PACK_MANIFEST_SCHEMA_VERSION: u32 = 1;

pub const MAX_LOCKED_PACKS: usize = 32;

pub const MAX_LOCKED_DEPENDENCIES: usize = 128;

pub const MAX_PACK_DESCRIPTORS: usize = 256;

pub const MAX_PACK_STRING_BYTES: usize = 256;

/// Identifier of the built-in document validator.
pub const CORE_VALIDATOR_VERSION: u32 = 1;

/// Identifier of the built-in document validator.
pub fn core_validator_id() -> (id: &'static str)
    ensures
        id@ == "cadx.validator.core"@,
{
    "cadx.validator.core"
}

/// Version of this library, recorded in the built-in Packs.
pub fn core_version() -> (v: &'static str)
    ensures
        v@ == "0.1.0"@,
{
    "0.1.0"
}

#[derive(Clone, Copy, Debug, PartialEq, Eq, PartialOrd, Ord, Structural)]
pub enum PackTrust {
    BuiltIn,
}

#[derive(Clone, Debug, PartialEq, Eq, PartialOrd, Ord)]
pub struct PackOperationDescriptor {
    pub id: String,
    pub schema_version: u32,
    pub capability: Capability,
}

#[derive(Clone, Debug, PartialEq, Eq, PartialOrd, Ord)]
pub struct PackQueryDescriptor {
    pub id: String,
    pub schema_version: u32,
}

#[derive(Clone, Debug, PartialEq, Eq, PartialOrd, Ord)]
pub struct PackValidatorDescriptor {
    pub id: String,
    pub version: u32,
}

#[derive(Clone, Debug, PartialEq, Eq)]
pub struct PackManifest {
    pub id: String,
    pub version: String,
    pub abi_version: u32,
    pub schema_version: u32,
    pub operations: Vec<PackOperationDescriptor>,
    pub queries: Vec<PackQueryDescriptor>,
    pub validators: Vec<PackValidatorDescriptor>,
    pub migrations: Vec<String>,
    pub artifact_hash: [u8; 32],
    pub publisher: String,
    pub trust: PackTrust,
}

/// The kind of a locked dependency; the declaration order is the sort order.
#[derive(Clone, Copy, Debug, PartialEq, Eq, PartialOrd, Ord, Structural)]
pub enum LockedDependencyKind {
    Core,
    GeometryKernel,
    Solver,
    Validator,
    RuleSet,
    MaterialLibrary,
    UnitDatabase,
    ExchangeProfile,
    ReleasePolicy,
}

impl LockedDependencyKind {
    pub open spec fn rank(self) -> int {
        match self {
            LockedDependencyKind::Core => 0,
            LockedDependencyKind::GeometryKernel => 1,
            LockedDependencyKind::Solver => 2,
            LockedDependencyKind::Validator => 3,
            LockedDependencyKind::RuleSet => 4,
            LockedDependencyKind::MaterialLibrary => 5,
            LockedDependencyKind::UnitDatabase => 6,
            LockedDependencyKind::ExchangeProfile => 7,
            LockedDependencyKind::ReleasePolicy => 8,
        }
    }

    pub fn rank_exec(self) -> (r: u8)
        ensures
            r == self.rank(),
    {
        match self {
            LockedDependencyKind::Core => 0,
            LockedDependencyKind::GeometryKernel => 1,
            LockedDependencyKind::Solver => 2,
            LockedDependencyKind::Validator => 3,
            LockedDependencyKind::RuleSet => 4,
            LockedDependencyKind::MaterialLibrary => 5,
            LockedDependencyKind::UnitDatabase => 6,
            LockedDependencyKind::ExchangeProfile => 7,
            LockedDependencyKind::ReleasePolicy => 8,
        }
    }
}

#[derive(Clone, Debug, PartialEq, Eq, PartialOrd, Ord)]
pub struct LockedDependency {
    pub kind: LockedDependencyKind,
    pub id: String,
    pub version: String,
    pub schema_version: u32,
    pub content_hash: [u8; 32],
}

/// Exact semantic dependency set used to prepare, validate, and replay a project.
///
/// The current host only accepts the built-in compatibility lock.
#[derive(Clone, Debug, PartialEq, Eq)]
pub struct PackLock {
    pub lock_version: u32,
    pub packs: Vec<PackManifest>,
    pub dependencies: Vec<LockedDependency>,
}

#[derive(Clone, Debug, PartialEq, Eq)]
pub enum PackLockError {
    UnsupportedVersion(u32),
    Invalid(&'static str),
}

// ---------------------------------------------------------------------------
// Orders (field by field, as `derive(Ord)` orders these types)
// ---------------------------------------------------------------------------

impl StrictOrder for PackManifest {
    /// Packs are ordered by id alone.
    open spec fn precedes(self, other: Self) -> bool {
        chars_lt(self.id@, other.id@)
    }

    proof fn lemma_transitive(a: Self, b: Self, c: Self) {
        lemma_chars_lt_transitive(a.id@, b.id@, c.id@);
    }

    proof fn lemma_irreflexive(a: Self) {
        lemma_chars_lt_irreflexive(a.id@);
    }

    fn less(&self, other: &Self) -> (r: bool) {
        str_less(self.id.as_str(), other.id.as_str())
    }
}

impl StrictOrder for PackOperationDescriptor {
    open spec fn precedes(self, other: Self) -> bool {
        ||| chars_lt(self.id@, other.id@)
        ||| self.id@ == other.id@ && self.schema_version < other.schema_version
        ||| self.id@ == other.id@ && self.schema_version == other.schema_version
            && self.capability.rank() < other.capability.rank()
    }

    proof fn lemma_transitive(a: Self, b: Self, c: Self) {
        if chars_lt(a.id@, b.id@) && chars_lt(b.id@, c.id@) {
            lemma_chars_lt_transitive(a.id@, b.id@, c.id@);
        }
    }

    proof fn lemma_irreflexive(a: Self) {
        lemma_chars_lt_irreflexive(a.id@);
    }

    fn less(&self, other: &Self) -> (r: bool) {
        if str_less(self.id.as_str(), other.id.as_str()) {
            return true;
        }
        if !str_equal(self.id.as_str(), other.id.as_str()) {
            return false;
        }
        self.schema_version < other.schema_version || (self.schema_version
            == other.schema_version && self.capability.rank_exec() < other.capability.rank_exec())
    }
}

impl StrictOrder for PackQueryDescriptor {
    open spec fn precedes(self, other: Self) -> bool {
        ||| chars_lt(self.id@, other.id@)
        ||| self.id@ == other.id@ && self.schema_version < other.schema_version
    }

    proof fn lemma_transitive(a: Self, b: Self, c: Self) {
        if chars_lt(a.id@, b.id@) && chars_lt(b.id@, c.id@) {
            lemma_chars_lt_transitive(a.id@, b.id@, c.id@);
        }
    }

    proof fn lemma_irreflexive(a: Self) {
        lemma_chars_lt_irreflexive(a.id@);
    }

    fn less(&self, other: &Self) -> (r: bool) {
        if str_less(self.id.as_str(), other.id.as_str()) {
            return true;
        }
        str_equal(self.id.as_str(), other.id.as_str()) && self.schema_version
            < other.schema_version
    }
}

impl StrictOrder for PackValidatorDescriptor {
    open spec fn precedes(self, other: Self) -> bool {
        ||| chars_lt(self.id@, other.id@)
        ||| self.id@ == other.id@ && self.version < other.version
    }

    proof fn lemma_transitive(a: Self, b: Self, c: Self) {
        if chars_lt(a.id@, b.id@) && chars_lt(b.id@, c.id@) {
            lemma_chars_lt_transitive(a.id@, b.id@, c.id@);
        }
    }

    proof fn lemma_irreflexive(a: Self) {
        lemma_chars_lt_irreflexive(a.id@);
    }

    fn less(&self, other: &Self) -> (r: bool) {
        if str_less(self.id.as_str(), other.id.as_str()) {
            return true;
        }
        str_equal(self.id.as_str(), other.id.as_str()) && self.version < other.version
    }
}

impl StrictOrder for LockedDependency {
    /// By kind, id, version, schema version, then content hash.
    open spec fn precedes(self, other: Self) -> bool {
        ||| self.kind.rank() < other.kind.rank()
        ||| self.kind == other.kind && chars_lt(self.id@, other.id@)
        ||| self.kind == other.kind && self.id@ == other.id@ && chars_lt(
            self.version@,
            other.version@,
        )
        ||| self.kind == other.kind && self.id@ == other.id@ && self.version@ == other.version@
            && self.schema_version < other.schema_version
        ||| self.kind == other.kind && self.id@ == other.id@ && self.version@ == other.version@
            && self.schema_version == other.schema_version && bytes_lt(
            self.content_hash@,
            other.content_hash@,
        )
    }

    proof fn lemma_transitive(a: Self, b: Self, c: Self) {
        if chars_lt(a.id@, b.id@) && chars_lt(b.id@, c.id@) {
            lemma_chars_lt_transitive(a.id@, b.id@, c.id@);
        }
        if chars_lt(a.version@, b.version@) && chars_lt(b.version@, c.version@) {
            lemma_chars_lt_transitive(a.version@, b.version@, c.version@);
        }
        if bytes_lt(a.content_hash@, b.content_hash@) && bytes_lt(
            b.content_hash@,
            c.content_hash@,
        ) {
            lemma_bytes_lt_transitive(a.content_hash@, b.content_hash@, c.content_hash@);
        }
    }

    proof fn lemma_irreflexive(a: Self) {
        lemma_chars_lt_irreflexive(a.id@);
        lemma_chars_lt_irreflexive(a.version@);
        lemma_bytes_lt_irreflexive(a.content_hash@);
    }

    fn less(&self, other: &Self) -> (r: bool) {
        let ka = self.kind.rank_exec();
        let kb = other.kind.rank_exec();
        if ka != kb {
            proof {
                if self.kind == other.kind {
                    assert(ka == kb);
                }
            }
            return ka < kb;
        }
        proof {
            assert(self.kind == other.kind) by {
                assert(self.kind.rank() == other.kind.rank());
            }
        }
        if str_less(self.id.as_str(), other.id.as_str()) {
            return true;
        }
        if !str_equal(self.id.as_str(), other.id.as_str()) {
            return false;
        }
        if str_less(self.version.as_str(), other.version.as_str()) {
            return true;
        }
        if !str_equal(self.version.as_str(), other.version.as_str()) {
            return false;
        }
        if self.schema_version != other.schema_version {
            return self.schema_version < other.schema_version;
        }
        bytes_less(&self.content_hash, &other.content_hash)
    }
}

// ---------------------------------------------------------------------------
// Validation
// ---------------------------------------------------------------------------

/// A non-blank string of at most `MAX_PACK_STRING_BYTES` bytes.
pub open spec fn bounded_text(s: Seq<char>) -> bool {
    !is_blank(s) && utf8(s).len() <= MAX_PACK_STRING_BYTES
}

pub open spec fn text_problem(s: Seq<char>, field: Seq<char>) -> Option<Seq<char>> {
    if bounded_text(s) {
        None
    } else {
        Some(field)
    }
}

pub open spec fn all_zero(h: Seq<u8>) -> bool {
    forall|i: int| 0 <= i < h.len() ==> h[i] == 0
}

/// The first problem reported for the elements of `s`, in order.
pub open spec fn first_problem<A>(s: Seq<A>, f: spec_fn(A) -> Option<Seq<char>>) -> Option<
    Seq<char>,
>
    decreases s.len(),
{
    if s.len() == 0 {
        None
    } else {
        match f(s[0]) {
            Some(m) => Some(m),
            None => first_problem(s.drop_first(), f),
        }
    }
}

pub open spec fn operation_problem(o: PackOperationDescriptor) -> Option<Seq<char>> {
    match text_problem(o.id@, "operation id"@) {
        Some(m) => Some(m),
        None => if o.schema_version == 0 {
            Some("operation schema version must be non-zero"@)
        } else {
            None
        },
    }
}

pub open spec fn query_problem(q: PackQueryDescriptor) -> Option<Seq<char>> {
    match text_problem(q.id@, "query id"@) {
        Some(m) => Some(m),
        None => if q.schema_version == 0 {
            Some("query schema version must be non-zero"@)
        } else {
            None
        },
    }
}

pub open spec fn validator_problem(v: PackValidatorDescriptor) -> Option<Seq<char>> {
    match text_problem(v.id@, "validator id"@) {
        Some(m) => Some(m),
        None => if v.version == 0 {
            Some("validator version must be non-zero"@)
        } else {
            None
        },
    }
}

pub open spec fn migration_problem(m: String) -> Option<Seq<char>> {
    text_problem(m@, "migration id"@)
}

pub open spec fn counts_invalid(p: PackManifest) -> bool {
    ||| p.operations@.len() == 0
    ||| p.operations@.len() > MAX_PACK_DESCRIPTORS
    ||| p.queries@.len() == 0
    ||| p.queries@.len() > MAX_PACK_DESCRIPTORS
    ||| p.validators@.len() == 0
    ||| p.validators@.len() > MAX_PACK_DESCRIPTORS
    ||| p.migrations@.len() > MAX_PACK_DESCRIPTORS
}

/// The first problem of one Pack manifest, in the order `validate` checks.
#[verifier::opaque]
pub open spec fn pack_problem(p: PackManifest) -> Option<Seq<char>> {
    if !bounded_text(p.id@) {
        Some("Pack id"@)
    } else if !bounded_text(p.version@) {
        Some("Pack version"@)
    } else if !bounded_text(p.publisher@) {
        Some("Pack publisher"@)
    } else if p.abi_version != PACK_ABI_VERSION || p.schema_version == 0 {
        Some("Pack ABI and schema versions must be supported"@)
    } else if counts_invalid(p) {
        Some("Pack descriptor counts are invalid"@)
    } else if !increasing(p.operations@) || !increasing(p.queries@) || !increasing(p.validators@)
        || !increasing(p.migrations@) {
        Some("Pack descriptors must be sorted and unique"@)
    } else if first_problem(p.operations@, |o| operation_problem(o)) is Some {
        first_problem(p.operations@, |o| operation_problem(o))
    } else if first_problem(p.queries@, |q| query_problem(q)) is Some {
        first_problem(p.queries@, |q| query_problem(q))
    } else if first_problem(p.validators@, |v| validator_problem(v)) is Some {
        first_problem(p.validators@, |v| validator_problem(v))
    } else if first_problem(p.migrations@, |m| migration_problem(m)) is Some {
        first_problem(p.migrations@, |m| migration_problem(m))
    } else if all_zero(p.artifact_hash@) {
        Some("Pack artifact hash must be non-zero"@)
    } else {
        None
    }
}

pub open spec fn dependency_problem(d: LockedDependency) -> Option<Seq<char>> {
    if !bounded_text(d.id@) {
        Some("dependency id"@)
    } else if !bounded_text(d.version@) {
        Some("dependency version"@)
    } else if d.schema_version == 0 || all_zero(d.content_hash@) {
        Some("dependency schema version and hash must be present"@)
    } else {
        None
    }
}

/// What `PackLock::validate` reports.
pub enum LockProblem {
    UnsupportedVersion(u32),
    Invalid(Seq<char>),
}

pub open spec fn lock_problem(lock: PackLock) -> Option<LockProblem> {
    if lock.lock_version != PACK_LOCK_VERSION {
        Some(LockProblem::UnsupportedVersion(lock.lock_version))
    } else if lock.packs@.len() == 0 || lock.packs@.len() > MAX_LOCKED_PACKS {
        Some(LockProblem::Invalid("invalid locked Pack count"@))
    } else if lock.dependencies@.len() == 0 || lock.dependencies@.len() > MAX_LOCKED_DEPENDENCIES {
        Some(LockProblem::Invalid("invalid locked dependency count"@))
    } else if !increasing(lock.packs@) {
        Some(LockProblem::Invalid("Pack manifests must be sorted by unique id"@))
    } else if !increasing(lock.dependencies@) {
        Some(LockProblem::Invalid("dependencies must be sorted and unique"@))
    } else {
        match first_problem(lock.packs@, |p| pack_problem(p)) {
            Some(m) => Some(LockProblem::Invalid(m)),
            None => match first_problem(lock.dependencies@, |d| dependency_problem(d)) {
                Some(m) => Some(LockProblem::Invalid(m)),
                None => None,
            },
        }
    }
}

/// The report `validate` owes for a problem (or its absence).
pub open spec fn reports(r: Result<(), PackLockError>, problem: Option<LockProblem>) -> bool {
    match problem {
        None => r is Ok,
        Some(LockProblem::UnsupportedVersion(v)) => r == Err::<(), PackLockError>(
            PackLockError::UnsupportedVersion(v),
        ),
        Some(LockProblem::Invalid(m)) => r matches Err(PackLockError::Invalid(text)) && text@
            == m,
    }
}

/// The report owed for an optional message.
pub open spec fn reports_message(r: Result<(), PackLockError>, problem: Option<Seq<char>>) -> bool {
    match problem {
        None => r is Ok,
        Some(m) => r matches Err(PackLockError::Invalid(text)) && text@ == m,
    }
}

proof fn lemma_first_problem_step<A>(s: Seq<A>, f: spec_fn(A) -> Option<Seq<char>>, i: int)
    requires
        0 <= i < s.len(),
        first_problem(s, f) == first_problem(s.skip(i), f),
        f(s[i]) is None,
    ensures
        first_problem(s, f) == first_problem(s.skip(i + 1), f),
{
    assert(s.skip(i)[0] == s[i]);
    assert(s.skip(i).drop_first() =~= s.skip(i + 1));
}

proof fn lemma_first_problem_hit<A>(s: Seq<A>, f: spec_fn(A) -> Option<Seq<char>>, i: int)
    requires
        0 <= i < s.len(),
        first_problem(s, f) == first_problem(s.skip(i), f),
        f(s[i]) is Some,
    ensures
        first_problem(s, f) == f(s[i]),
{
    assert(s.skip(i)[0] == s[i]);
}

proof fn lemma_first_problem_start<A>(s: Seq<A>, f: spec_fn(A) -> Option<Seq<char>>)
    ensures
        first_problem(s, f) == first_problem(s.skip(0), f),
        s.skip(s.len() as int).len() == 0,
{
    assert(s.skip(0) =~= s);
}

fn validate_string(value: &str, field: &'static str) -> (r: Result<(), PackLockError>)
    ensures
        reports_message(r, text_problem(value@, field@)),
{
    proof {
        assert(value.spec_bytes() == utf8(value@));
    }
    if str_is_blank(value) || value.as_bytes().len() > MAX_PACK_STRING_BYTES {
        return Err(PackLockError::Invalid(field));
    }
    Ok(())
}

fn is_all_zero(h: &[u8; 32]) -> (r: bool)
    ensures
        r == all_zero(h@),
{
    let mut i: usize = 0;
    while i < 32
        invariant
            i <= 32,
            h@.len() == 32,
            forall|j: int| 0 <= j < i ==> h@[j] == 0,
        decreases 32 - i,
    {
        if h[i] != 0 {
            return false;
        }
        i += 1;
    }
    true
}

fn validate_operations(operations: &Vec<PackOperationDescriptor>) -> (r: Result<(), PackLockError>)
    ensures
        reports_message(r, first_problem(operations@, |o| operation_problem(o))),
{
    let ghost f = |o| operation_problem(o);
    proof {
        lemma_first_problem_start(operations@, f);
    }
    let mut i: usize = 0;
    while i < operations.len()
        invariant
            i <= operations@.len(),
            first_problem(operations@, f) == first_problem(operations@.skip(i as int), f),
            forall|x: PackOperationDescriptor| #[trigger] f(x) == operation_problem(x),
        decreases operations@.len() - i,
    {
        let operation = &operations[i];
        let id_check = validate_string(operation.id.as_str(), "operation id");
        if id_check.is_err() {
            proof {
                lemma_first_problem_hit(operations@, f, i as int);
                assert(f =~= (|x: PackOperationDescriptor| operation_problem(x)));
            }
            return id_check;
        }
        if operation.schema_version == 0 {
            proof {
                lemma_first_problem_hit(operations@, f, i as int);
                assert(f =~= (|x: PackOperationDescriptor| operation_problem(x)));
            }
            return Err(PackLockError::Invalid("operation schema version must be non-zero"));
        }
        proof {
            lemma_first_problem_step(operations@, f, i as int);
        }
        i += 1;
    }
    Ok(())
}

fn validate_queries(queries: &Vec<PackQueryDescriptor>) -> (r: Result<(), PackLockError>)
    ensures
        reports_message(r, first_problem(queries@, |q| query_problem(q))),
{
    let ghost f = |q| query_problem(q);
    proof {
        lemma_first_problem_start(queries@, f);
    }
    let mut i: usize = 0;
    while i < queries.len()
        invariant
            i <= queries@.len(),
            first_problem(queries@, f) == first_problem(queries@.skip(i as int), f),
            forall|x: PackQueryDescriptor| #[trigger] f(x) == query_problem(x),
        decreases queries@.len() - i,
    {
        let query = &queries[i];
        let id_check = validate_string(query.id.as_str(), "query id");
        if id_check.is_err() {
            proof {
                lemma_first_problem_hit(queries@, f, i as int);
                assert(f =~= (|x: PackQueryDescriptor| query_problem(x)));
            }
            return id_check;
        }
        if query.schema_version == 0 {
            proof {
                lemma_first_problem_hit(queries@, f, i as int);
                assert(f =~= (|x: PackQueryDescriptor| query_problem(x)));
            }
            return Err(PackLockError::Invalid("query schema version must be non-zero"));
        }
        proof {
            lemma_first_problem_step(queries@, f, i as int);
        }
        i += 1;
    }
    Ok(())
}

fn validate_validators(validators: &Vec<PackValidatorDescriptor>) -> (r: Result<(), PackLockError>)
    ensures
        reports_message(r, first_problem(validators@, |v| validator_problem(v))),
{
    let ghost f = |v| validator_problem(v);
    proof {
        lemma_first_problem_start(validators@, f);
    }
    let mut i: usize = 0;
    while i < validators.len()
        invariant
            i <= validators@.len(),
            first_problem(validators@, f) == first_problem(validators@.skip(i as int), f),
            forall|x: PackValidatorDescriptor| #[trigger] f(x) == validator_problem(x),
        decreases validators@.len() - i,
    {
        let validator = &validators[i];
        let id_check = validate_string(validator.id.as_str(), "validator id");
        if id_check.is_err() {
            proof {
                lemma_first_problem_hit(validators@, f, i as int);
                assert(f =~= (|x: PackValidatorDescriptor| validator_problem(x)));
            }
            return id_check;
        }
        if validator.version == 0 {
            proof {
                lemma_first_problem_hit(validators@, f, i as int);
                assert(f =~= (|x: PackValidatorDescriptor| validator_problem(x)));
            }
            return Err(PackLockError::Invalid("validator version must be non-zero"));
        }
        proof {
            lemma_first_problem_step(validators@, f, i as int);
        }
        i += 1;
    }
    Ok(())
}

fn validate_migrations(migrations: &Vec<String>) -> (r: Result<(), PackLockError>)
    ensures
        reports_message(r, first_problem(migrations@, |m| migration_problem(m))),
{
    let ghost f = |m| migration_problem(m);
    proof {
        lemma_first_problem_start(migrations@, f);
    }
    let mut i: usize = 0;
    while i < migrations.len()
        invariant
            i <= migrations@.len(),
            first_problem(migrations@, f) == first_problem(migrations@.skip(i as int), f),
            forall|x: String| #[trigger] f(x) == migration_problem(x),
        decreases migrations@.len() - i,
    {
        let check = validate_string(migrations[i].as_str(), "migration id");
        if check.is_err() {
            proof {
                lemma_first_problem_hit(migrations@, f, i as int);
                assert(f =~= (|x: String| migration_problem(x)));
            }
            return check;
        }
        proof {
            lemma_first_problem_step(migrations@, f, i as int);
        }
        i += 1;
    }
    Ok(())
}

fn validate_pack(pack: &PackManifest) -> (r: Result<(), PackLockError>)
    ensures
        reports_message(r, pack_problem(*pack)),
{
    reveal(pack_problem);
    let check = validate_string(pack.id.as_str(), "Pack id");
    if check.is_err() {
        return check;
    }
    let check = validate_string(pack.version.as_str(), "Pack version");
    if check.is_err() {
        return check;
    }
    let check = validate_string(pack.publisher.as_str(), "Pack publisher");
    if check.is_err() {
        return check;
    }
    if pack.abi_version != PACK_ABI_VERSION || pack.schema_version == 0 {
        return Err(PackLockError::Invalid("Pack ABI and schema versions must be supported"));
    }
    if pack.operations.len() == 0 || pack.operations.len() > MAX_PACK_DESCRIPTORS
        || pack.queries.len() == 0 || pack.queries.len() > MAX_PACK_DESCRIPTORS
        || pack.validators.len() == 0 || pack.validators.len() > MAX_PACK_DESCRIPTORS
        || pack.migrations.len() > MAX_PACK_DESCRIPTORS {
        return Err(PackLockError::Invalid("Pack descriptor counts are invalid"));
    }
    if !strictly_sorted_unique(&pack.operations) || !strictly_sorted_unique(&pack.queries) || !strictly_sorted_unique(
        &pack.validators,
    ) || !strictly_sorted_unique(&pack.migrations) {
        return Err(PackLockError::Invalid("Pack descriptors must be sorted and unique"));
    }
    let check = validate_operations(&pack.operations);
    if check.is_err() {
        return check;
    }
    let check = validate_queries(&pack.queries);
    if check.is_err() {
        return check;
    }
    let check = validate_validators(&pack.validators);
    if check.is_err() {
        return check;
    }
    let check = validate_migrations(&pack.migrations);
    if check.is_err() {
        return check;
    }
    if is_all_zero(&pack.artifact_hash) {
        return Err(PackLockError::Invalid("Pack artifact hash must be non-zero"));
    }
    Ok(())
}

fn validate_dependency(dependency: &LockedDependency) -> (r: Result<(), PackLockError>)
    ensures
        reports_message(r, dependency_problem(*dependency)),
{
    let check = validate_string(dependency.id.as_str(), "dependency id");
    if check.is_err() {
        return check;
    }
    let check = validate_string(dependency.version.as_str(), "dependency version");
    if check.is_err() {
        return check;
    }
    if dependency.schema_version == 0 || is_all_zero(&dependency.content_hash) {
        return Err(PackLockError::Invalid("dependency schema version and hash must be present"));
    }
    Ok(())
}

impl PackLock {
    /// Checks the lock's version, bounds, canonical order, and every field.
    pub fn validate(&self) -> (r: Result<(), PackLockError>)
        ensures
            reports(r, lock_problem(*self)),
    {
        if self.lock_version != PACK_LOCK_VERSION {
            return Err(PackLockError::UnsupportedVersion(self.lock_version));
        }
        if self.packs.len() == 0 || self.packs.len() > MAX_LOCKED_PACKS {
            return Err(PackLockError::Invalid("invalid locked Pack count"));
        }
        if self.dependencies.len() == 0 || self.dependencies.len() > MAX_LOCKED_DEPENDENCIES {
            return Err(PackLockError::Invalid("invalid locked dependency count"));
        }
        if !strictly_sorted_unique(&self.packs) {
            return Err(PackLockError::Invalid("Pack manifests must be sorted by unique id"));
        }
        if !strictly_sorted_unique(&self.dependencies) {
            return Err(PackLockError::Invalid("dependencies must be sorted and unique"));
        }
        let ghost f = |p| pack_problem(p);
        proof {
            lemma_first_problem_start(self.packs@, f);
        }
        let mut i: usize = 0;
        while i < self.packs.len()
            invariant
                i <= self.packs@.len(),
                self.lock_version == PACK_LOCK_VERSION,
                0 < self.packs@.len() <= MAX_LOCKED_PACKS,
                0 < self.dependencies@.len() <= MAX_LOCKED_DEPENDENCIES,
                increasing(self.packs@),
                increasing(self.dependencies@),
                first_problem(self.packs@, f) == first_problem(self.packs@.skip(i as int), f),
            forall|x: PackManifest| #[trigger] f(x) == pack_problem(x),
            decreases self.packs@.len() - i,
        {
            let check = validate_pack(&self.packs[i]);
            if check.is_err() {
                proof {
                    lemma_first_problem_hit(self.packs@, f, i as int);
                assert(f =~= (|x: PackManifest| pack_problem(x)));
                }
                return check;
            }
            proof {
                lemma_first_problem_step(self.packs@, f, i as int);
            }
            i += 1;
        }
        proof {
            assert(f =~= (|x: PackManifest| pack_problem(x)));
        }
        let ghost g = |d| dependency_problem(d);
        proof {
            lemma_first_problem_start(self.dependencies@, g);
        }
        let mut i: usize = 0;
        while i < self.dependencies.len()
            invariant
                i <= self.dependencies@.len(),
                self.lock_version == PACK_LOCK_VERSION,
                0 < self.packs@.len() <= MAX_LOCKED_PACKS,
                0 < self.dependencies@.len() <= MAX_LOCKED_DEPENDENCIES,
                increasing(self.packs@),
                increasing(self.dependencies@),
                first_problem(self.packs@, f) is None,
                f =~= (|x: PackManifest| pack_problem(x)),
                first_problem(self.dependencies@, g) == first_problem(
                    self.dependencies@.skip(i as int),
                    g,
                ),
                forall|x: LockedDependency| #[trigger] g(x) == dependency_problem(x),
            decreases self.dependencies@.len() - i,
        {
            let check = validate_dependency(&self.dependencies[i]);
            if check.is_err() {
                proof {
                    lemma_first_problem_hit(self.dependencies@, g, i as int);
                assert(g =~= (|x: LockedDependency| dependency_problem(x)));
                }
                return check;
            }
            proof {
                lemma_first_problem_step(self.dependencies@, g, i as int);
            }
            i += 1;
        }
        Ok(())
    }
}

// ---------------------------------------------------------------------------
// The built-in compatibility lock
// ---------------------------------------------------------------------------

/// The byte prefix that separates artifact hashes from other SHA-256 uses.
pub open spec fn artifact_hash_domain() -> Seq<char> {
    "CADX-BUILTIN-ARTIFACT\0v1\0"@
}

/// The content hash recorded for a built-in artifact or semantic contract.
pub open spec fn builtin_artifact_hash(value: Seq<char>) -> Seq<u8> {
    sha256(utf8(artifact_hash_domain()) + utf8(value))
}

fn builtin_artifact_hash_exec(value: &str) -> (hash: [u8; 32])
    ensures
        hash@ == builtin_artifact_hash(value@),
{
    let mut data: Vec<u8> = Vec::new();
    append_bytes(&mut data, "CADX-BUILTIN-ARTIFACT\0v1\0".as_bytes());
    append_bytes(&mut data, value.as_bytes());
    sha256_digest(data.as_slice())
}

pub open spec fn operation_view(o: PackOperationDescriptor) -> (Seq<char>, u32, Capability) {
    (o.id@, o.schema_version, o.capability)
}

pub open spec fn query_view(q: PackQueryDescriptor) -> (Seq<char>, u32) {
    (q.id@, q.schema_version)
}

/// `"{id}.{suffix}"`.
pub open spec fn qualified(id: Seq<char>, suffix: Seq<char>) -> Seq<char> {
    id + "."@ + suffix
}

/// The built-in compatibility Pack `id`: one operation per name, two summary
/// queries, the core validator, and a content hash of the id.
pub open spec fn is_compatibility_pack(
    p: PackManifest,
    id: Seq<char>,
    capability: Capability,
    names: Seq<Seq<char>>,
) -> bool {
    &&& p.id@ == id
    &&& p.version@ == "0.1.0"@
    &&& p.abi_version == PACK_ABI_VERSION
    &&& p.schema_version == PACK_MANIFEST_SCHEMA_VERSION
    &&& sorted(p.operations@)
    &&& exists|u: Seq<PackOperationDescriptor>|
        {
            &&& u.len() == names.len()
            &&& forall|i: int|
                0 <= i < names.len() ==> operation_view(#[trigger] u[i]) == (
                    qualified(id, names[i]),
                    1u32,
                    capability,
                )
            &&& p.operations@.to_multiset() == u.to_multiset()
        }
    &&& sorted(p.queries@)
    &&& exists|u: Seq<PackQueryDescriptor>|
        {
            &&& u.len() == 2
            &&& query_view(u[0]) == (qualified(id, "document_summary"@), 1u32)
            &&& query_view(u[1]) == (qualified(id, "object_summary"@), 1u32)
            &&& p.queries@.to_multiset() == u.to_multiset()
        }
    &&& p.validators@.len() == 1
    &&& p.validators@[0].id@ == "cadx.validator.core"@
    &&& p.validators@[0].version == CORE_VALIDATOR_VERSION
    &&& p.migrations@.len() == 0
    &&& p.artifact_hash@ == builtin_artifact_hash(id)
    &&& p.publisher@ == "cadx.project"@
    &&& p.trust == PackTrust::BuiltIn
}

fn qualified_name(id: &str, suffix: &str) -> (s: String)
    ensures
        s@ == qualified(id@, suffix@),
{
    let mut s = String::new();
    push_str(&mut s, id);
    push_str(&mut s, ".");
    push_str(&mut s, suffix);
    proof {
        assert(s@ =~= qualified(id@, suffix@));
    }
    s
}

/// A built-in Pack that exposes the listed operations under one capability.
pub fn compatibility_pack(id: &str, capability: Capability, operation_names: &[&str]) -> (p:
    PackManifest)
    ensures
        is_compatibility_pack(
            p,
            id@,
            capability,
            operation_names@.map_values(|n: &str| n@),
        ),
{
    let ghost names = operation_names@.map_values(|n: &str| n@);
    let mut operations: Vec<PackOperationDescriptor> = Vec::new();
    let mut i: usize = 0;
    while i < operation_names.len()
        invariant
            i <= operation_names@.len(),
            names == operation_names@.map_values(|n: &str| n@),
            operations@.len() == i,
            forall|k: int|
                0 <= k < i ==> operation_view(#[trigger] operations@[k]) == (
                    qualified(id@, names[k]),
                    1u32,
                    capability,
                ),
        decreases operation_names@.len() - i,
    {
        let name = qualified_name(id, operation_names[i]);
        operations.push(PackOperationDescriptor { id: name, schema_version: 1, capability });
        i += 1;
    }
    let ghost built = operations@;
    let operations = sort(operations);
    let mut queries: Vec<PackQueryDescriptor> = Vec::new();
    queries.push(
        PackQueryDescriptor { id: qualified_name(id, "document_summary"), schema_version: 1 },
    );
    queries.push(PackQueryDescriptor { id: qualified_name(id, "object_summary"), schema_version: 1 });
    let ghost built_queries = queries@;
    let queries = sort(queries);
    let mut validators: Vec<PackValidatorDescriptor> = Vec::new();
    validators.push(
        PackValidatorDescriptor {
            id: core_validator_id().to_owned(),
            version: CORE_VALIDATOR_VERSION,
        },
    );
    let p = PackManifest {
        id: id.to_owned(),
        version: core_version().to_owned(),
        abi_version: PACK_ABI_VERSION,
        schema_version: PACK_MANIFEST_SCHEMA_VERSION,
        operations,
        queries,
        validators,
        migrations: Vec::new(),
        artifact_hash: builtin_artifact_hash_exec(id),
        publisher: "cadx.project".to_owned(),
        trust: PackTrust::BuiltIn,
    };
    proof {
        assert(p.operations@.to_multiset() == built.to_multiset());
        assert(p.queries@.to_multiset() == built_queries.to_multiset());
    }
    p
}

pub open spec fn is_locked_dependency(
    d: LockedDependency,
    kind: LockedDependencyKind,
    id: Seq<char>,
    version: Seq<char>,
    schema_version: u32,
    semantic_contract: Seq<char>,
) -> bool {
    &&& d.kind == kind
    &&& d.id@ == id
    &&& d.version@ == version
    &&& d.schema_version == schema_version
    &&& d.content_hash@ == builtin_artifact_hash(semantic_contract)
}

/// A locked dependency whose content hash names its semantic contract.
pub fn locked_dependency(
    kind: LockedDependencyKind,
    id: &str,
    version: &str,
    schema_version: u32,
    semantic_contract: &str,
) -> (d: LockedDependency)
    ensures
        is_locked_dependency(d, kind, id@, version@, schema_version, semantic_contract@),
{
    LockedDependency {
        kind,
        id: id.to_owned(),
        version: version.to_owned(),
        schema_version,
        content_hash: builtin_artifact_hash_exec(semantic_contract),
    }
}

/// The four built-in compatibility Packs, in the order they are declared.
pub open spec fn current_packs_spec(u: Seq<PackManifest>) -> bool {
    &&& u.len() == 4
    &&& is_compatibility_pack(
        u[0],
        "cadx.pack.architecture.compat"@,
        Capability::Architecture,
        seq!["create_entity"@, "update_entity"@, "delete_entity"@],
    )
    &&& is_compatibility_pack(
        u[1],
        "cadx.pack.drafting.compat"@,
        Capability::Drafting,
        seq![
            "create_layer"@,
            "update_layer"@,
            "delete_layer"@,
            "create_entity"@,
            "update_entity"@,
            "delete_entity"@,
        ],
    )
    &&& is_compatibility_pack(
        u[2],
        "cadx.pack.mechanical.compat"@,
        Capability::Mechanical,
        seq![
            "create_entity"@,
            "update_entity"@,
            "delete_entity"@,
            "create_constraint"@,
            "update_constraint"@,
            "delete_constraint"@,
        ],
    )
    &&& is_compatibility_pack(
        u[3],
        "cadx.pack.parameters.compat"@,
        Capability::Parameters,
        seq!["set_parameter"@, "delete_parameter"@],
    )
}

/// The ten built-in locked dependencies, in the order they are declared.
pub open spec fn current_dependencies_spec(u: Seq<LockedDependency>) -> bool {
    &&& u.len() == 10
    &&& is_locked_dependency(
        u[0],
        LockedDependencyKind::Core,
        "cadx.core"@,
        "0.1.0"@,
        5,
        "typed-document+history+workspace-v1"@,
    )
    &&& is_locked_dependency(
        u[1],
        LockedDependencyKind::GeometryKernel,
        "cadx.geometry.extrusion-mesh"@,
        "1"@,
        1,
        "bounded-profile-extrusion-v1"@,
    )
    &&& is_locked_dependency(
        u[2],
        LockedDependencyKind::Solver,
        "cadx.solver.sketch2d"@,
        "1"@,
        1,
        "deterministic-small-sketch-solver-v1"@,
    )
    &&& is_locked_dependency(
        u[3],
        LockedDependencyKind::Validator,
        "cadx.validator.core"@,
        "1"@,
        1,
        "document-structure+sketch-constraints-v1"@,
    )
    &&& is_locked_dependency(
        u[4],
        LockedDependencyKind::RuleSet,
        "cadx.rules.compatibility-draft"@,
        "1"@,
        1,
        "core-hard-errors+draft-warnings-v1"@,
    )
    &&& is_locked_dependency(
        u[5],
        LockedDependencyKind::MaterialLibrary,
        "cadx.materials.none"@,
        "1"@,
        1,
        "no-authoritative-material-library"@,
    )
    &&& is_locked_dependency(
        u[6],
        LockedDependencyKind::UnitDatabase,
        "cadx.units.builtin"@,
        "1"@,
        1,
        "millimeter-inch-conversion-v1"@,
    )
    &&& is_locked_dependency(
        u[7],
        LockedDependencyKind::ExchangeProfile,
        "cadx.exchange.dxf-r2013-subset"@,
        "1"@,
        1,
        "bounded-2d-dxf-profile-v1"@,
    )
    &&& is_locked_dependency(
        u[8],
        LockedDependencyKind::ExchangeProfile,
        "cadx.exchange.pdf-vector-2d"@,
        "1"@,
        1,
        "single-page-vector-pdf-profile-v1"@,
    )
    &&& is_locked_dependency(
        u[9],
        LockedDependencyKind::ReleasePolicy,
        "cadx.release.draft-only"@,
        "1"@,
        1,
        "no-release-attestation-supported"@,
    )
}

impl PackLock {
    /// The built-in compatibility lock: its Packs sorted by id and its
    /// dependencies sorted.
    pub fn current() -> (lock: Self)
        ensures
            lock.lock_version == PACK_LOCK_VERSION,
            sorted(lock.packs@),
            exists|u: Seq<PackManifest>|
                current_packs_spec(u) && lock.packs@.to_multiset() == u.to_multiset(),
            sorted(lock.dependencies@),
            exists|u: Seq<LockedDependency>|
                current_dependencies_spec(u) && lock.dependencies@.to_multiset()
                    == u.to_multiset(),
    {
        let mut packs: Vec<PackManifest> = Vec::new();
        packs.push(
            compatibility_pack(
                "cadx.pack.architecture.compat",
                Capability::Architecture,
                &["create_entity", "update_entity", "delete_entity"],
            ),
        );
        packs.push(
            compatibility_pack(
                "cadx.pack.drafting.compat",
                Capability::Drafting,
                &[
                    "create_layer",
                    "update_layer",
                    "delete_layer",
                    "create_entity",
                    "update_entity",
                    "delete_entity",
                ],
            ),
        );
        packs.push(
            compatibility_pack(
                "cadx.pack.mechanical.compat",
                Capability::Mechanical,
                &[
                    "create_entity",
                    "update_entity",
                    "delete_entity",
                    "create_constraint",
                    "update_constraint",
                    "delete_constraint",
                ],
            ),
        );
        packs.push(
            compatibility_pack(
                "cadx.pack.parameters.compat",
                Capability::Parameters,
                &["set_parameter", "delete_parameter"],
            ),
        );
        let ghost built_packs = packs@;
        let packs = sort(packs);
        let mut dependencies: Vec<LockedDependency> = Vec::new();
        dependencies.push(
            locked_dependency(
                LockedDependencyKind::Core,
                "cadx.core",
                core_version(),
                5,
                "typed-document+history+workspace-v1",
            ),
        );
        dependencies.push(
            locked_dependency(
                LockedDependencyKind::GeometryKernel,
                "cadx.geometry.extrusion-mesh",
                "1",
                1,
                "bounded-profile-extrusion-v1",
            ),
        );
        dependencies.push(
            locked_dependency(
                LockedDependencyKind::Solver,
                "cadx.solver.sketch2d",
                "1",
                1,
                "deterministic-small-sketch-solver-v1",
            ),
        );
        dependencies.push(
            locked_dependency(
                LockedDependencyKind::Validator,
                core_validator_id(),
                "1",
                1,
                "document-structure+sketch-constraints-v1",
            ),
        );
        dependencies.push(
            locked_dependency(
                LockedDependencyKind::RuleSet,
                "cadx.rules.compatibility-draft",
                "1",
                1,
                "core-hard-errors+draft-warnings-v1",
            ),
        );
        dependencies.push(
            locked_dependency(
                LockedDependencyKind::MaterialLibrary,
                "cadx.materials.none",
                "1",
                1,
                "no-authoritative-material-library",
            ),
        );
        dependencies.push(
            locked_dependency(
                LockedDependencyKind::UnitDatabase,
                "cadx.units.builtin",
                "1",
                1,
                "millimeter-inch-conversion-v1",
            ),
        );
        dependencies.push(
            locked_dependency(
                LockedDependencyKind::ExchangeProfile,
                "cadx.exchange.dxf-r2013-subset",
                "1",
                1,
                "bounded-2d-dxf-profile-v1",
            ),
        );
        dependencies.push(
            locked_dependency(
                LockedDependencyKind::ExchangeProfile,
                "cadx.exchange.pdf-vector-2d",
                "1",
                1,
                "single-page-vector-pdf-profile-v1",
            ),
        );
        dependencies.push(
            locked_dependency(
                LockedDependencyKind::ReleasePolicy,
                "cadx.release.draft-only",
                "1",
                1,
                "no-release-attestation-supported",
            ),
        );
        let ghost built_dependencies = dependencies@;
        let dependencies = sort(dependencies);
        proof {
            assert(current_packs_spec(built_packs));
            assert(current_dependencies_spec(built_dependencies));
        }
        PackLock { lock_version: PACK_LOCK_VERSION, packs, dependencies }
    }

    /// SHA-256 over a domain separator and the lock's canonical JSON encoding.
    pub fn hash(canonical_json: &[u8]) -> (hash: [u8; 32])
        ensures
            hash@ == sha256(utf8(pack_lock_hash_domain()) + canonical_json@),
    {
        let mut data: Vec<u8> = Vec::new();
        append_bytes(&mut data, "CADX-PACK-LOCK\0canonical-json-v1\0".as_bytes());
        append_bytes(&mut data, canonical_json);
        sha256_digest(data.as_slice())
    }

    /// The lock hash in lower-case hexadecimal.
    pub fn hash_hex(canonical_json: &[u8]) -> (hex: String)
        ensures
            hex@ == hex_lower(sha256(utf8(pack_lock_hash_domain()) + canonical_json@)),
            hex@.len() == 64,
    {
        let hash = Self::hash(canonical_json);
        to_hex_lower(&hash)
    }
}

/// The byte prefix that separates lock hashes from other SHA-256 uses.
pub open spec fn pack_lock_hash_domain() -> Seq<char> {
    "CADX-PACK-LOCK\0canonical-json-v1\0"@
}


/// The hexadecimal form of a lock hash has 64 lower-case hexadecimal digits,
/// two per hash byte in order, and two hashes with one form are equal.
pub proof fn law_lock_hash_hex_form(hash: [u8; 32], other: [u8; 32])
    ensures
        hex_lower(hash@).len() == 64,
        forall|i: int| 0 <= i < 64 ==> is_hex_char(#[trigger] hex_lower(hash@)[i]),
        hex_lower(hash@) == hex_lower(other@) ==> hash@ == other@,
{
    law_hex_lower_shape(hash@);
    if hex_lower(hash@) == hex_lower(other@) {
        law_hex_lower_injective(hash@, other@);
    }
}

proof fn lemma_first_problem_none<A>(s: Seq<A>, f: spec_fn(A) -> Option<Seq<char>>, i: int)
    requires
        first_problem(s, f) is None,
        0 <= i < s.len(),
    ensures
        f(s[i]) is None,
    decreases s.len(),
{
    if i > 0 {
        lemma_first_problem_none(s.drop_first(), f, i - 1);
    }
}

/// A lock that passes `validate` has the supported version, between one and
/// the limit of Packs and of dependencies, each list strictly increasing;
/// every Pack has the supported ABI, a non-zero schema version, between one
/// and the limit of strictly increasing operations, queries and validators,
/// at most the limit of strictly increasing migrations, and a non-zero
/// artifact hash; every dependency has a non-zero schema version and hash.
pub proof fn law_valid_lock_consequences(lock: PackLock)
    requires
        lock_problem(lock) is None,
    ensures
        lock.lock_version == PACK_LOCK_VERSION,
        1 <= lock.packs@.len() <= MAX_LOCKED_PACKS,
        1 <= lock.dependencies@.len() <= MAX_LOCKED_DEPENDENCIES,
        increasing(lock.packs@),
        increasing(lock.dependencies@),
        forall|i: int| 0 <= i < lock.packs@.len() ==> {
            let p = #[trigger] lock.packs@[i];
            &&& p.abi_version == PACK_ABI_VERSION
            &&& p.schema_version != 0
            &&& 1 <= p.operations@.len() <= MAX_PACK_DESCRIPTORS
            &&& 1 <= p.queries@.len() <= MAX_PACK_DESCRIPTORS
            &&& 1 <= p.validators@.len() <= MAX_PACK_DESCRIPTORS
            &&& p.migrations@.len() <= MAX_PACK_DESCRIPTORS
            &&& increasing(p.operations@)
            &&& increasing(p.queries@)
            &&& increasing(p.validators@)
            &&& increasing(p.migrations@)
            &&& !all_zero(p.artifact_hash@)
        },
        forall|i: int| 0 <= i < lock.dependencies@.len() ==> {
            let d = #[trigger] lock.dependencies@[i];
            &&& d.schema_version != 0
            &&& !all_zero(d.content_hash@)
        },
{
    assert forall|i: int| 0 <= i < lock.packs@.len() implies {
        let p = #[trigger] lock.packs@[i];
        &&& p.abi_version == PACK_ABI_VERSION
        &&& p.schema_version != 0
        &&& 1 <= p.operations@.len() <= MAX_PACK_DESCRIPTORS
        &&& 1 <= p.queries@.len() <= MAX_PACK_DESCRIPTORS
        &&& 1 <= p.validators@.len() <= MAX_PACK_DESCRIPTORS
        &&& p.migrations@.len() <= MAX_PACK_DESCRIPTORS
        &&& increasing(p.operations@)
        &&& increasing(p.queries@)
        &&& increasing(p.validators@)
        &&& increasing(p.migrations@)
        &&& !all_zero(p.artifact_hash@)
    } by {
        lemma_first_problem_none(lock.packs@, |p| pack_problem(p), i);
        reveal(pack_problem);
    }
    assert forall|i: int| 0 <= i < lock.dependencies@.len() implies {
        let d = #[trigger] lock.dependencies@[i];
        &&& d.schema_version != 0
        &&& !all_zero(d.content_hash@)
    } by {
        lemma_first_problem_none(lock.dependencies@, |d| dependency_problem(d), i);
    }
}


proof fn lemma_sorted_copy_is_increasing<T: StrictOrder>(s: Seq<T>, u: Seq<T>)
    requires
        sorted(s),
        s.to_multiset() == u.to_multiset(),
        forall|a: int, b: int| 0 <= a < u.len() && 0 <= b < u.len() && a != b ==> (#[trigger] u[a]).precedes(#[trigger] u[b]) || u[b].precedes(u[a]),
    ensures
        increasing(s),
{
    broadcast use vstd::seq_lib::group_to_multiset_ensures;

    assert(u.no_duplicates()) by {
        assert forall|a: int, b: int| 0 <= a < u.len() && 0 <= b < u.len() && a != b implies u[a] != u[b] by {
            if u[a] == u[b] {
                T::lemma_irreflexive(u[a]);
            }
        }
    }
    u.lemma_multiset_has_no_duplicates();
    s.lemma_multiset_has_no_duplicates_conv();
    assert forall|i: int| 0 <= i < s.len() - 1 implies #[trigger] s[i].precedes(s[i + 1]) by {
        assert(s.contains(s[i]));
        assert(s.contains(s[i + 1]));
        assert(s.to_multiset().count(s[i]) > 0);
        assert(s.to_multiset().count(s[i + 1]) > 0);
        assert(u.to_multiset().count(s[i]) > 0);
        assert(u.to_multiset().count(s[i + 1]) > 0);
        assert(u.contains(s[i]));
        assert(u.contains(s[i + 1]));
        let a = choose|a: int| 0 <= a < u.len() && u[a] == s[i];
        let b = choose|b: int| 0 <= b < u.len() && u[b] == s[i + 1];
        assert(s[i] != s[i + 1]);
        assert(u[a].precedes(u[b]) || u[b].precedes(u[a]));
        assert(!s[i + 1].precedes(s[i]));
    }
}

/// The built-in lock, as `current` describes it, has the supported version,
/// four Packs and ten dependencies, and both lists strictly increasing.
pub proof fn law_current_lock_is_strictly_ordered(lock: PackLock)
    requires
        lock.lock_version == PACK_LOCK_VERSION,
        sorted(lock.packs@),
        exists|u: Seq<PackManifest>| current_packs_spec(u) && lock.packs@.to_multiset() == u.to_multiset(),
        sorted(lock.dependencies@),
        exists|u: Seq<LockedDependency>| current_dependencies_spec(u) && lock.dependencies@.to_multiset() == u.to_multiset(),
    ensures
        lock.lock_version == PACK_LOCK_VERSION,
        lock.packs@.len() == 4,
        lock.dependencies@.len() == 10,
        increasing(lock.packs@),
        increasing(lock.dependencies@),
{
    broadcast use vstd::seq_lib::group_to_multiset_ensures;

    let u = choose|u: Seq<PackManifest>| current_packs_spec(u) && lock.packs@.to_multiset() == u.to_multiset();
    let w = choose|w: Seq<LockedDependency>| current_dependencies_spec(w) && lock.dependencies@.to_multiset() == w.to_multiset();
    reveal_strlit("cadx.pack.architecture.compat");
    reveal_strlit("cadx.pack.drafting.compat");
    reveal_strlit("cadx.pack.mechanical.compat");
    reveal_strlit("cadx.pack.parameters.compat");
    reveal_strlit("cadx.exchange.dxf-r2013-subset");
    reveal_strlit("cadx.exchange.pdf-vector-2d");
    assert forall|a: int, b: int| 0 <= a < u.len() && 0 <= b < u.len() && a != b implies (#[trigger] u[a]).precedes(#[trigger] u[b]) || u[b].precedes(u[a]) by {
        lemma_chars_lt_total(u[a].id@, u[b].id@);
        assert(u[a].id@ != u[b].id@) by {
            assert(u[2].id@[10] != u[3].id@[10]);
        }
    }
    lemma_sorted_copy_is_increasing(lock.packs@, u);
    assert forall|a: int, b: int| 0 <= a < w.len() && 0 <= b < w.len() && a != b implies (#[trigger] w[a]).precedes(#[trigger] w[b]) || w[b].precedes(w[a]) by {
        if w[a].kind == w[b].kind {
            lemma_chars_lt_total(w[a].id@, w[b].id@);
            assert(w[7].id@[14] != w[8].id@[14]);
        }
    }
    lemma_sorted_copy_is_increasing(lock.dependencies@, w);
    assert(lock.packs@.len() == lock.packs@.to_multiset().len());
    assert(u.len() == u.to_multiset().len());
    assert(lock.dependencies@.len() == lock.dependencies@.to_multiset().len());
    assert(w.len() == w.to_multiset().len());
}

} // verus!
