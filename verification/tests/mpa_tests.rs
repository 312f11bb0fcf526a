//! The multi-party-approval flows: who may mint a ticket, what a
//! forged one is worth, and how a broker's source identity is checked
//! before a mirror role is assumed.

use approval::directory::MemoryDirectory;
use approval::directory::PrincipalRecord;
use approval::manager::ApprovalManager;
use approval::manager::SetTicketError;
use approval::mirror::is_sso_role_path;
use approval::mirror::mirror_role_name;
use approval::mirror::parse_caller_resource;
use approval::sweep::evict_invalid_tickets;
use approval::ticket::ApprovalTicket;
use approval::ticket::HumanIdentity;

fn ticket(giver: &str, receiver: &str) -> ApprovalTicket {
    ApprovalTicket::new(
        HumanIdentity::new(giver.to_string()),
        HumanIdentity::new(receiver.to_string()),
    )
}

fn principal(name: &str) -> PrincipalRecord {
    PrincipalRecord { name: name.to_string(), tags: Vec::new() }
}

#[test]
fn given_no_mpa_grant_when_attempting_mpa_tagging_then_denied() {
    let directory = MemoryDirectory {
        records: vec![principal("worker")],
        denied: vec!["worker".to_string()],
        deny_listing: false,
    };
    let mut manager = ApprovalManager::new(directory);
    assert!(matches!(
        manager.set_ticket("worker", ticket("alice", "bob")),
        Err(SetTicketError::InternalError(_))
    ));
}

#[test]
fn given_mpa_grant_and_no_identity_when_attempting_mpa_tagging_then_denied() {
    // A caller that is no assumed role carries no session identity, so
    // no giver can be named and no ticket is minted.
    assert_eq!(parse_caller_resource("user/alice"), None);
    assert_eq!(parse_caller_resource("assumed-role"), None);
}

#[test]
fn given_mpa_grant_when_setting_forged_ticket_then_denied() {
    // A ticket whose expiry lies implausibly far out is stale by
    // policy: the sweep revokes it on its next pass.
    let now: i64 = 1_000_000;
    let max_ttl: i64 = 3600;
    let directory = MemoryDirectory {
        records: vec![principal("worker")],
        denied: Vec::new(),
        deny_listing: false,
    };
    let mut manager = ApprovalManager::new(directory);
    let forged = ticket("mallory", "mallory").set_expiry(now + 999_999);
    manager.set_ticket("worker", forged).unwrap();
    let evicted = evict_invalid_tickets(&mut manager, now, max_ttl).unwrap();
    assert_eq!(evicted.len(), 1);
    assert_eq!(evicted[0].0, "worker");
    assert_eq!(manager.get_ticket("worker").unwrap(), None);
}

#[test]
fn given_non_sso_principal_when_setting_soruce_identity_then_denied() {
    // Only a role under the SSO path may chain into its mirror with a
    // source identity.
    assert!(!is_sso_role_path("/teams/storage/"));
    assert_eq!(mirror_role_name("plain-service-role"), None);
}

#[test]
fn given_authorized_broker_principal_when_setting_source_identity_then_allowed() {
    assert!(is_sso_role_path("/aws-reserved/sso.amazonaws.com/eu-west-1/"));
    assert_eq!(
        mirror_role_name("AWSReservedSSO_StorageAdmin_abc123"),
        Some("tagctl-mirror-StorageAdmin".to_string())
    );
    let caller = parse_caller_resource("assumed-role/AWSReservedSSO_StorageAdmin_abc123/alice");
    let (role, session) = caller.unwrap();
    assert_eq!(role, "AWSReservedSSO_StorageAdmin_abc123");
    assert_eq!(session, "alice");
}

#[test]
fn given_granted_principal_when_tagging_valid_mpa_ticket_then_allowed() {
    let now: i64 = 1_000_000;
    let directory = MemoryDirectory {
        records: vec![principal("worker")],
        denied: Vec::new(),
        deny_listing: false,
    };
    let mut manager = ApprovalManager::new(directory);
    manager.set_ticket("worker", ticket("alice", "bob").set_expiry(now + 600)).unwrap();
    let got = manager.get_ticket("worker").unwrap().unwrap();
    assert_eq!(got.giver.0, "alice");
    assert_eq!(got.expires_at(), Some(now + 600));
}
