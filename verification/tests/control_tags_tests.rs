//! Control-namespace tagging: who may write the reserved tag, and what
//! counts as the reserved key.  Provider-side denial is modelled by the
//! in-memory directory's injected refusals; the key discipline by the
//! tag adapter.

use approval::directory::MemoryDirectory;
use approval::directory::PrincipalRecord;
use approval::manager::ApprovalManager;
use approval::manager::SetTicketError;
use approval::tags::ticket_from_tag;
use approval::tags::TagRecord;
use approval::tags::TicketBuildError;
use approval::ticket::ApprovalTicket;
use approval::ticket::HumanIdentity;

fn ticket(giver: &str, receiver: &str) -> ApprovalTicket {
    ApprovalTicket::new(
        HumanIdentity::new(giver.to_string()),
        HumanIdentity::new(receiver.to_string()),
    )
}

fn principal(name: &str) -> PrincipalRecord {
    PrincipalRecord { name: name.to_string(), tags: Vec::new() }
}

#[test]
fn given_grantless_principal_when_attempting_ctl_tagging_then_denied() {
    // Without a grant, the provider refuses every tagging call about
    // the target.
    let directory = MemoryDirectory {
        records: vec![principal("worker")],
        denied: vec!["worker".to_string()],
        deny_listing: false,
    };
    let mut manager = ApprovalManager::new(directory);
    assert!(matches!(
        manager.set_ticket("worker", ticket("alice", "bob")),
        Err(SetTicketError::InternalError(_))
    ));
}

#[test]
fn given_granted_principal_when_ctl_tagging_outside_grant_area_then_denied() {
    // The grant covers one area of principals; writing outside it is
    // refused by the provider.
    let directory = MemoryDirectory {
        records: vec![principal("inside"), principal("outside")],
        denied: vec!["outside".to_string()],
        deny_listing: false,
    };
    let mut manager = ApprovalManager::new(directory);
    manager.set_ticket("inside", ticket("alice", "bob")).unwrap();
    assert!(matches!(
        manager.set_ticket("outside", ticket("alice", "bob")),
        Err(SetTicketError::InternalError(_))
    ));
    assert_eq!(manager.get_ticket("outside").unwrap_err(), approval::manager::ListTicketsError::InternalError(approval::directory::DirectoryError::Transport));
}

#[test]
fn given_granted_principal_when_tagging_ctl_lookalike_then_denied() {
    // A key that merely resembles the reserved one is not read as a
    // ticket.
    let lookalike = TagRecord {
        key: "tagctl-v1/admin/mpa/ticket".to_string(),
        value: "by/alice//for/bob".to_string(),
    };
    assert!(matches!(
        ticket_from_tag(&lookalike),
        Err(TicketBuildError::TagKeyInvalid(_))
    ));
    let wrong_version = TagRecord {
        key: "tagctl/v2/admin/mpa/ticket".to_string(),
        value: "by/alice//for/bob".to_string(),
    };
    assert!(matches!(
        ticket_from_tag(&wrong_version),
        Err(TicketBuildError::TagKeyInvalid(_))
    ));
}

#[test]
fn reserved_key_with_unreadable_value_is_a_parse_failure() {
    let tag = TagRecord {
        key: "tagctl/v1/admin/mpa/ticket".to_string(),
        value: "nope/alice/for/bob".to_string(),
    };
    assert!(matches!(
        ticket_from_tag(&tag),
        Err(TicketBuildError::TagValueParseError(
            approval::ticket::ParseError::MissingGiver
        ))
    ));
}

#[test]
fn given_granted_principal_when_ctl_tagging_within_grant_area_then_allowed() {
    let directory = MemoryDirectory {
        records: vec![principal("worker")],
        denied: Vec::new(),
        deny_listing: false,
    };
    let mut manager = ApprovalManager::new(directory);
    manager.set_ticket("worker", ticket("alice", "bob")).unwrap();
    let got = manager.get_ticket("worker").unwrap().unwrap();
    assert_eq!(got.giver.0, "alice");
    assert_eq!(got.receiver.0, "bob");
}
