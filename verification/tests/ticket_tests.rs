//! The ticket codec: parsing, encoding, the reserved attributes, and
//! the round trip on concrete tickets.

use approval::ticket::ApprovalTicket;
use approval::ticket::HumanIdentity;
use approval::ticket::ParseError;

fn ticket(giver: &str, receiver: &str) -> ApprovalTicket {
    ApprovalTicket::new(
        HumanIdentity::new(giver.to_string()),
        HumanIdentity::new(receiver.to_string()),
    )
}

#[test]
fn test_parse_ticket() {
    let ticket = "by/alice/chain=true/exp=1618033988/for/bob";
    let parsed = ApprovalTicket::decode(ticket).unwrap();
    assert_eq!(parsed.giver.0, "alice");
    assert_eq!(parsed.receiver.0, "bob");
    assert_eq!(parsed.is_chainable(), true);
    assert_eq!(parsed.get_attr("exp"), Some(&"1618033988".to_string()));
}

#[test]
fn test_display_ticket() {
    let ticket = ticket("alice", "bob")
        .insert("chain".to_string(), "true".to_string())
        .insert("exp".to_string(), "1618033988".to_string());
    let displayed = ticket.encode();
    assert!(displayed.starts_with("by/alice/"));
    assert!(displayed.ends_with("/for/bob"));
    assert!(displayed.contains("/chain=true/"));
    assert!(displayed.contains("/exp=1618033988/"));
}

#[test]
fn test_chainable_ticket() {
    let ticket = ticket("alice", "bob")
        .insert("chain".to_string(), "true".to_string())
        .insert("exp".to_string(), "1618033988".to_string());
    assert_eq!(ticket.is_chainable(), true);
}

#[test]
fn test_expires_at_ticket() {
    let ticket = ticket("alice", "bob")
        .insert("chain".to_string(), "true".to_string())
        .insert("exp".to_string(), "1618033988".to_string());
    assert_eq!(ticket.expires_at(), Some(1618033988));
}

#[test]
fn round_trip_reproduces_the_ticket() {
    let original = ticket("alice", "bob")
        .insert("chain".to_string(), "true".to_string())
        .insert("exp".to_string(), "1618033988".to_string())
        .insert("note".to_string(), "on=call".to_string());
    assert_eq!(
        original.encode(),
        "by/alice/chain=true/exp=1618033988/note=on=call/for/bob"
    );
    let decoded = ApprovalTicket::decode(original.encode().as_str()).unwrap();
    assert_eq!(decoded.giver.0, "alice");
    assert_eq!(decoded.receiver.0, "bob");
    assert_eq!(decoded.get_attr("chain"), Some(&"true".to_string()));
    assert_eq!(decoded.get_attr("exp"), Some(&"1618033988".to_string()));
    assert_eq!(decoded.get_attr("note"), Some(&"on=call".to_string()));
}

#[test]
fn round_trip_without_attributes() {
    let original = ticket("alice", "bob");
    assert_eq!(original.encode(), "by/alice//for/bob");
    let decoded = ApprovalTicket::decode("by/alice//for/bob").unwrap();
    assert_eq!(decoded.giver.0, "alice");
    assert_eq!(decoded.receiver.0, "bob");
    assert_eq!(decoded.get_attr("chain"), None);
}

#[test]
fn decode_rejects_malformed_prefixes() {
    assert_eq!(
        ApprovalTicket::decode("nope/alice/for/bob").unwrap_err(),
        ParseError::MissingGiver
    );
    assert_eq!(
        ApprovalTicket::decode("by/alice/nothing").unwrap_err(),
        ParseError::MissingReceiver
    );
    assert_eq!(ApprovalTicket::decode("by").unwrap_err(), ParseError::MissingGiver);
    assert_eq!(ApprovalTicket::decode("").unwrap_err(), ParseError::MissingGiver);
}

#[test]
fn decode_tolerates_junk_attributes() {
    let decoded = ApprovalTicket::decode("by/alice/garbage/for/bob").unwrap();
    assert_eq!(decoded.giver.0, "alice");
    assert_eq!(decoded.receiver.0, "bob");
    assert_eq!(decoded.get_attr("garbage"), None);
}

#[test]
fn decode_keeps_the_last_duplicate_key() {
    let decoded = ApprovalTicket::decode("by/alice/k=1/k=2/for/bob").unwrap();
    assert_eq!(decoded.get_attr("k"), Some(&"2".to_string()));
}

#[test]
fn chainable_defaults_to_false() {
    assert_eq!(ticket("alice", "bob").is_chainable(), false);
    let yes = ticket("alice", "bob").set_chainable(true);
    assert_eq!(yes.is_chainable(), true);
    let no = ticket("alice", "bob").insert("chain".to_string(), "notabool".to_string());
    assert_eq!(no.is_chainable(), false);
}

#[test]
fn expiry_parses_or_yields_nothing() {
    let some = ApprovalTicket::decode("by/alice/exp=1618033988/for/bob").unwrap();
    assert_eq!(some.expires_at(), Some(1618033988));
    let absent = ApprovalTicket::decode("by/alice//for/bob").unwrap();
    assert_eq!(absent.expires_at(), None);
    let malformed = ApprovalTicket::decode("by/alice/exp=notanumber/for/bob").unwrap();
    assert_eq!(malformed.expires_at(), None);
    let out_of_range = ApprovalTicket::decode("by/alice/exp=9223372036854775807/for/bob").unwrap();
    assert_eq!(out_of_range.expires_at(), None);
    let negative = ApprovalTicket::decode("by/alice/exp=-1/for/bob").unwrap();
    assert_eq!(negative.expires_at(), Some(-1));
    let below_range = ApprovalTicket::decode("by/alice/exp=-9000000000000/for/bob").unwrap();
    assert_eq!(below_range.expires_at(), None);
    let signed = ApprovalTicket::decode("by/alice/exp=+5/for/bob").unwrap();
    assert_eq!(signed.expires_at(), Some(5));
}

#[test]
fn set_expiry_writes_decimal_seconds() {
    let t = ticket("alice", "bob").set_expiry(1618033988);
    assert_eq!(t.get_attr("exp"), Some(&"1618033988".to_string()));
    assert_eq!(t.expires_at(), Some(1618033988));
    let early = ticket("alice", "bob").set_expiry(0);
    assert_eq!(early.get_attr("exp"), Some(&"0".to_string()));
}

#[test]
fn insert_replaces_an_existing_key() {
    let t = ticket("alice", "bob")
        .insert("k".to_string(), "1".to_string())
        .insert("k".to_string(), "2".to_string());
    assert_eq!(t.get_attr("k"), Some(&"2".to_string()));
    let encoded = t.encode();
    assert_eq!(encoded.matches("k=").count(), 1);
}
