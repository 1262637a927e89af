use cadx_core::capability::Capability;
use cadx_core::remote_policy::{
    validate_text, ProjectId, RemoteAccessCheck, RemoteAccessGrantRequest, RemoteAccessPolicy,
    RemoteDataCategory, RemoteObjectScope, RemotePolicyError, RemotePolicyEvent,
    MAX_REMOTE_CONTEXT_BYTES,
};

fn request(endpoint: &str) -> RemoteAccessGrantRequest {
    RemoteAccessGrantRequest {
        endpoint: endpoint.to_owned(),
        model: "model-x".to_owned(),
        allowed_data_categories: vec![RemoteDataCategory::DocumentSummary],
        allowed_capabilities: vec![Capability::Drafting],
        object_scope: RemoteObjectScope::from_selected_entities(&vec![7, 3, 7]),
        max_payload_bytes: 4096,
        granted_at_unix_seconds: 100,
        expires_at_unix_seconds: Some(200),
    }
}

#[test]
fn scopes_collect_unique_ids_and_permit_subsets() {
    let scope = RemoteObjectScope::from_selected_entities(&vec![7, 3, 7]);
    match &scope {
        RemoteObjectScope::SelectedEntities { entity_ids } => assert_eq!(entity_ids, &vec![3, 7]),
        RemoteObjectScope::ProjectSummary => panic!("expected a selection"),
    }
    assert!(scope.permits(&[3]));
    assert!(scope.permits(&[]));
    assert!(!scope.permits(&[3, 4]));
    let summary = RemoteObjectScope::from_selected_entities(&Vec::new());
    assert!(matches!(summary, RemoteObjectScope::ProjectSummary));
    assert!(summary.permits(&[]));
    assert!(!summary.permits(&[1]));
    let empty = RemoteObjectScope::SelectedEntities { entity_ids: Vec::new() };
    assert!(matches!(empty.validate(), Err(RemotePolicyError::InvalidGrant(_))));
    assert!(scope.validate().is_ok());
}

#[test]
fn grants_are_created_authorized_and_revoked() {
    let project = ProjectId(42);
    let mut policy = RemoteAccessPolicy::new();
    let id = policy.create_grant(project, request("https://models.example")).ok().unwrap();
    assert_eq!(id, 1);
    assert!(policy.validate(project).is_ok());
    let grant = &policy.grants()[0];
    let categories = [RemoteDataCategory::DocumentSummary];
    let capabilities = [Capability::Drafting];
    let check = |selected: &'static [u64], unix_seconds| RemoteAccessCheck {
        project_id: ProjectId(42),
        endpoint: "https://models.example",
        model: "model-x",
        data_categories: &categories,
        capabilities: &capabilities,
        selected_entity_ids: selected,
        payload_bytes: 1024,
        unix_seconds,
    };
    assert!(grant.authorizes(check(&[3], 150)));
    assert!(!grant.authorizes(check(&[4], 150)));
    assert!(!grant.authorizes(check(&[3], 99)));
    assert!(!grant.authorizes(check(&[3], 200)));
    assert!(grant.is_active_at(100));
    assert!(!grant.is_active_at(200));

    assert!(matches!(policy.revoke_grant(id, 50), Err(RemotePolicyError::InvalidGrant(_))));
    assert!(policy.revoke_grant(id, 120).is_ok());
    assert!(matches!(policy.revoke_grant(id, 130), Err(RemotePolicyError::GrantAlreadyRevoked(1))));
    assert!(matches!(policy.revoke_grant(9, 130), Err(RemotePolicyError::GrantMissing(9))));
    assert!(!policy.grants()[0].authorizes(check(&[3], 150)));
    assert!(policy.grants()[0].authorizes(check(&[3], 110)));
    assert_eq!(policy.events().len(), 2);
    assert!(matches!(policy.events()[1], RemotePolicyEvent::Revoked { grant_id: 1, revoked_at_unix_seconds: 120 }));
    assert!(policy.validate(project).is_ok());
}

#[test]
fn invalid_requests_are_refused_and_leave_no_trace() {
    let project = ProjectId(7);
    let mut policy = RemoteAccessPolicy::new();
    assert!(matches!(
        policy.create_grant(project, request("   ")),
        Err(RemotePolicyError::InvalidGrant(ref m)) if m == "provider endpoint must be non-empty, bounded UTF-8 without NUL"
    ));
    let mut oversized = request("https://models.example");
    oversized.max_payload_bytes = MAX_REMOTE_CONTEXT_BYTES + 1;
    assert!(matches!(
        policy.create_grant(project, oversized),
        Err(RemotePolicyError::InvalidGrant(ref m)) if m == "grant payload limit must be between 1 and 262144 bytes"
    ));
    let mut expired = request("https://models.example");
    expired.expires_at_unix_seconds = Some(100);
    assert!(matches!(
        policy.create_grant(project, expired),
        Err(RemotePolicyError::InvalidGrant(ref m)) if m == "grant expiry must be later than its creation time"
    ));
    let mut no_categories = request("https://models.example");
    no_categories.allowed_data_categories = Vec::new();
    assert!(matches!(
        policy.create_grant(project, no_categories),
        Err(RemotePolicyError::InvalidGrant(ref m)) if m == "grant must allow at least one remote data category"
    ));
    assert!(policy.grants().is_empty());
    assert!(policy.events().is_empty());
    assert!(policy.validate(project).is_ok());
}

#[test]
fn a_ledger_checks_against_its_own_project_only() {
    let mut policy = RemoteAccessPolicy::new();
    policy.create_grant(ProjectId(1), request("https://models.example")).ok().unwrap();
    assert!(matches!(
        policy.validate(ProjectId(2)),
        Err(RemotePolicyError::InvalidGrant(ref m)) if m == "grant is bound to a different project"
    ));
    assert!(policy.validate(ProjectId(1)).is_ok());
}

#[test]
fn text_fields_are_bounded_and_free_of_nul() {
    assert!(validate_text("provider model", "gpt", 3).is_ok());
    assert!(validate_text("provider model", "gpt4", 3).is_err());
    assert!(validate_text("provider model", "a\0b", 16).is_err());
    assert!(matches!(
        validate_text("provider model", " ", 16),
        Err(RemotePolicyError::InvalidGrant(ref m)) if m == "provider model must be non-empty, bounded UTF-8 without NUL"
    ));
}

#[test]
fn fresh_project_ids_are_random_version_four_uuids() {
    let a = ProjectId::new();
    let b = ProjectId::new();
    assert_ne!(a.0, b.0);
    assert_eq!((a.0 >> 76) & 0xF, 4);
    assert_eq!((b.0 >> 62) & 0x3, 2);
}
