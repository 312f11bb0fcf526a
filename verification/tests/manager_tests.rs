//! The ticket lifecycle over the in-memory directory: single-ticket
//! operations, enumeration with per-principal failure isolation, tag
//! scoping, and the eviction sweep.

use approval::directory::MemoryDirectory;
use approval::directory::PrincipalRecord;
use approval::manager::ApprovalManager;
use approval::manager::ListTicketsError;
use approval::manager::SetTicketError;
use approval::sweep::evict_invalid_tickets;
use approval::sweep::is_evictable_at;
use approval::tags::TagRecord;
use approval::ticket::ApprovalTicket;
use approval::ticket::HumanIdentity;

fn ticket(giver: &str, receiver: &str) -> ApprovalTicket {
    ApprovalTicket::new(
        HumanIdentity::new(giver.to_string()),
        HumanIdentity::new(receiver.to_string()),
    )
}

fn principal(name: &str) -> PrincipalRecord {
    PrincipalRecord { name: name.to_string(), tags: Vec::new() }
}

fn directory(records: Vec<PrincipalRecord>) -> MemoryDirectory {
    MemoryDirectory { records, denied: Vec::new(), deny_listing: false }
}

#[test]
fn set_then_get_observes_the_ticket() {
    let mut manager = ApprovalManager::new(directory(vec![principal("worker")]));
    manager.set_ticket("worker", ticket("alice", "bob").set_expiry(1000)).unwrap();
    let got = manager.get_ticket("worker").unwrap().unwrap();
    assert_eq!(got.giver.0, "alice");
    assert_eq!(got.receiver.0, "bob");
    assert_eq!(got.expires_at(), Some(1000));
}

#[test]
fn get_distinguishes_missing_principal_from_no_ticket() {
    let manager = ApprovalManager::new(directory(vec![principal("worker")]));
    assert_eq!(manager.get_ticket("worker").unwrap(), None);
    assert!(matches!(
        manager.get_ticket("nobody"),
        Err(ListTicketsError::MissingPrincipal)
    ));
}

#[test]
fn get_skips_unrelated_and_undecodable_tags() {
    let records = vec![PrincipalRecord {
        name: "worker".to_string(),
        tags: vec![
            TagRecord { key: "team".to_string(), value: "storage".to_string() },
            TagRecord {
                key: "tagctl/v1/admin/mpa/ticket".to_string(),
                value: "not-a-ticket".to_string(),
            },
            TagRecord {
                key: "tagctl/v1/admin/mpa/ticket".to_string(),
                value: "by/alice//for/bob".to_string(),
            },
        ],
    }];
    let manager = ApprovalManager::new(directory(records));
    let got = manager.get_ticket("worker").unwrap().unwrap();
    assert_eq!(got.giver.0, "alice");
}

#[test]
fn set_refuses_an_oversized_ticket_before_any_call() {
    let mut manager = ApprovalManager::new(directory(vec![principal("worker")]));
    let long = "x".repeat(300);
    let bloated = ticket("alice", "bob").insert("note".to_string(), long);
    assert!(matches!(
        manager.set_ticket("worker", bloated),
        Err(SetTicketError::MalformedTag)
    ));
    assert_eq!(manager.get_ticket("worker").unwrap(), None);
}

#[test]
fn tag_scoping_never_leaks_across_principals() {
    let mut manager = ApprovalManager::new(directory(vec![principal("a"), principal("b")]));
    manager.set_ticket("a", ticket("alice", "bob")).unwrap();
    assert_eq!(manager.get_ticket("b").unwrap(), None);
    let got = manager.get_ticket("a").unwrap().unwrap();
    assert_eq!(got.giver.0, "alice");
}

#[test]
fn unset_of_an_absent_ticket_succeeds() {
    let mut manager = ApprovalManager::new(directory(vec![principal("a")]));
    manager.unset_ticket("a").unwrap();
    assert_eq!(manager.get_ticket("a").unwrap(), None);
    manager.set_ticket("a", ticket("alice", "bob")).unwrap();
    manager.unset_ticket("a").unwrap();
    manager.unset_ticket("a").unwrap();
    assert_eq!(manager.get_ticket("a").unwrap(), None);
}

#[test]
fn list_all_yields_only_ticketed_principals() {
    let mut manager = ApprovalManager::new(directory(vec![
        principal("a"),
        principal("b"),
        principal("c"),
    ]));
    manager.set_ticket("a", ticket("alice", "bob")).unwrap();
    manager.set_ticket("c", ticket("carol", "dave")).unwrap();
    let mut names: Vec<String> =
        manager.list_all_tickets().unwrap().into_iter().map(|(p, _)| p).collect();
    names.sort();
    assert_eq!(names, vec!["a".to_string(), "c".to_string()]);
}

#[test]
fn one_failing_fetch_does_not_abort_the_listing() {
    let mut manager = ApprovalManager::new(directory(vec![
        principal("a"),
        principal("broken"),
        principal("c"),
    ]));
    manager.set_ticket("a", ticket("alice", "bob")).unwrap();
    manager.set_ticket("broken", ticket("mallory", "mallory")).unwrap();
    manager.set_ticket("c", ticket("carol", "dave")).unwrap();
    manager.directory.denied.push("broken".to_string());
    let mut names: Vec<String> =
        manager.list_all_tickets().unwrap().into_iter().map(|(p, _)| p).collect();
    names.sort();
    assert_eq!(names, vec!["a".to_string(), "c".to_string()]);
}

#[test]
fn eviction_takes_stale_and_keeps_fresh_tickets() {
    let now: i64 = 1_000_000;
    let max_ttl: i64 = 3600;
    let mut manager = ApprovalManager::new(directory(vec![
        principal("expired"),
        principal("fresh"),
        principal("forged"),
        principal("undeclared"),
    ]));
    manager.set_ticket("expired", ticket("a", "b").set_expiry(now - 10)).unwrap();
    manager.set_ticket("fresh", ticket("a", "b").set_expiry(now + 10)).unwrap();
    manager.set_ticket("forged", ticket("a", "b").set_expiry(now + 7200)).unwrap();
    manager.set_ticket("undeclared", ticket("a", "b")).unwrap();
    let mut evicted: Vec<String> = evict_invalid_tickets(&mut manager, now, max_ttl)
        .unwrap()
        .into_iter()
        .map(|(p, _)| p)
        .collect();
    evicted.sort();
    assert_eq!(
        evicted,
        vec!["expired".to_string(), "forged".to_string(), "undeclared".to_string()]
    );
    assert_eq!(manager.get_ticket("expired").unwrap(), None);
    assert_eq!(manager.get_ticket("forged").unwrap(), None);
    assert_eq!(manager.get_ticket("undeclared").unwrap(), None);
    assert!(manager.get_ticket("fresh").unwrap().is_some());
}

#[test]
fn eviction_predicate_cases() {
    let now: i64 = 1_000_000;
    let max_ttl: i64 = 3600;
    let past = ticket("a", "b").set_expiry(now - 1);
    assert!(is_evictable_at(&past, now, max_ttl));
    let soon = ticket("a", "b").set_expiry(now + 10);
    assert!(!is_evictable_at(&soon, now, max_ttl));
    let far = ticket("a", "b").set_expiry(now + 7200);
    assert!(is_evictable_at(&far, now, max_ttl));
    let none = ticket("a", "b");
    assert!(is_evictable_at(&none, now, max_ttl));
    let at_cap = ticket("a", "b").set_expiry(now + max_ttl);
    assert!(is_evictable_at(&at_cap, now, max_ttl));
}

#[test]
fn eviction_failures_are_isolated_per_principal() {
    let now: i64 = 1_000_000;
    let mut manager = ApprovalManager::new(directory(vec![
        principal("stuck"),
        principal("stale"),
    ]));
    manager.set_ticket("stuck", ticket("a", "b").set_expiry(now - 5)).unwrap();
    manager.set_ticket("stale", ticket("a", "b").set_expiry(now - 5)).unwrap();
    manager.directory.denied.push("stuck".to_string());
    evict_invalid_tickets(&mut manager, now, 3600).unwrap();
    manager.directory.denied.clear();
    assert_eq!(manager.get_ticket("stale").unwrap(), None);
    assert!(manager.get_ticket("stuck").unwrap().is_some());
}
