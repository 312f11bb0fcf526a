//! Guarded actions: an action is open to a principal exactly while it
//! holds a ticket that the staleness policy still accepts.

use approval::directory::MemoryDirectory;
use approval::directory::PrincipalRecord;
use approval::manager::ApprovalManager;
use approval::sweep::is_evictable_at;
use approval::ticket::ApprovalTicket;
use approval::ticket::HumanIdentity;

fn guard_allows(manager: &ApprovalManager<MemoryDirectory>, principal: &str, now: i64, max_ttl: i64) -> bool {
    match manager.get_ticket(principal) {
        Ok(Some(ticket)) => !is_evictable_at(&ticket, now, max_ttl),
        _ => false,
    }
}

#[test]
fn given_no_mpa_ticket_when_calling_guarded_action_then_denied() {
    let directory = MemoryDirectory {
        records: vec![PrincipalRecord { name: "worker".to_string(), tags: Vec::new() }],
        denied: Vec::new(),
        deny_listing: false,
    };
    let manager = ApprovalManager::new(directory);
    assert!(!guard_allows(&manager, "worker", 1_000_000, 3600));
}

#[test]
fn given_mpa_ticket_when_calling_guarded_action_then_allowed() {
    let now: i64 = 1_000_000;
    let directory = MemoryDirectory {
        records: vec![PrincipalRecord { name: "worker".to_string(), tags: Vec::new() }],
        denied: Vec::new(),
        deny_listing: false,
    };
    let mut manager = ApprovalManager::new(directory);
    let ticket = ApprovalTicket::new(
        HumanIdentity::new("alice".to_string()),
        HumanIdentity::new("bob".to_string()),
    )
    .set_expiry(now + 600);
    manager.set_ticket("worker", ticket).unwrap();
    assert!(guard_allows(&manager, "worker", now, 3600));
}
