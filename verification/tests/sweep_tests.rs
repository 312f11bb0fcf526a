//! Scope discovery over the organisation tree, dispatch bookkeeping,
//! configuration validation, and the command-line decision helpers.

use approval::config::build_config;
use approval::config::AppConfig;
use approval::config::ConfigError;
use approval::mirror::caller_names;
use approval::mirror::grant_ticket;
use approval::mirror::is_sso_role_path;
use approval::mirror::mirror_role_name;
use approval::mirror::parse_caller_resource;
use approval::mirror::session_duration;
use approval::sweep::accounts_under;
use approval::sweep::discover_accounts;
use approval::sweep::dispatched_accounts;
use approval::sweep::OrgNode;
use approval::sweep::PolicyTarget;

fn account(id: &str) -> OrgNode {
    OrgNode::Account { id: id.to_string() }
}

fn unit(id: &str, children: Vec<OrgNode>) -> OrgNode {
    OrgNode::Unit { id: id.to_string(), children }
}

#[test]
fn traversal_reaches_every_leaf_exactly_once() {
    // Three levels: root > (accounts, one unit > (account, empty unit),
    // another unit).
    let tree = unit(
        "root",
        vec![
            account("111"),
            unit("ou-a", vec![account("222"), unit("ou-empty", vec![])]),
            account("333"),
            unit("ou-b", vec![account("444")]),
        ],
    );
    assert_eq!(
        accounts_under(&tree),
        vec!["111".to_string(), "222".to_string(), "333".to_string(), "444".to_string()]
    );
}

#[test]
fn traversal_of_a_leaf_yields_it_alone() {
    assert_eq!(accounts_under(&account("999")), vec!["999".to_string()]);
    let empty = unit("root", vec![]);
    assert_eq!(accounts_under(&empty), Vec::<String>::new());
}

#[test]
fn discovery_takes_accounts_subtrees_and_skips_unknown_targets() {
    let targets = vec![
        PolicyTarget::Account { id: "555".to_string() },
        PolicyTarget::Unknown { id: "mystery".to_string() },
        PolicyTarget::Subtree { root: unit("ou", vec![account("666"), account("777")]) },
    ];
    assert_eq!(
        discover_accounts(&targets),
        vec!["555".to_string(), "666".to_string(), "777".to_string()]
    );
}

#[test]
fn one_failed_dispatch_keeps_the_rest() {
    let outcomes = vec![
        ("111".to_string(), true),
        ("222".to_string(), false),
        ("333".to_string(), true),
    ];
    assert_eq!(dispatched_accounts(&outcomes), vec!["111".to_string(), "333".to_string()]);
}

#[test]
fn config_requires_every_value_and_a_positive_ttl() {
    let ok: AppConfig = build_config(
        Some("worker".to_string()),
        Some("/teams/storage/".to_string()),
        Some("p-123".to_string()),
        Some("3600".to_string()),
    )
    .unwrap();
    assert_eq!(ok.role_name, "worker");
    assert_eq!(ok.role_path, "teams/storage");
    assert_eq!(ok.control_tags_scp_id, "p-123");
    assert_eq!(ok.max_ticket_ttl_seconds, 3600);

    let no_ttl = build_config(
        Some("worker".to_string()),
        Some("p".to_string()),
        Some("p-123".to_string()),
        None,
    );
    assert_eq!(no_ttl.unwrap_err(), ConfigError::InvalidTtl);

    let bad_ttl = build_config(
        Some("worker".to_string()),
        Some("p".to_string()),
        Some("p-123".to_string()),
        Some("0".to_string()),
    );
    assert_eq!(bad_ttl.unwrap_err(), ConfigError::InvalidTtl);

    let unreadable_ttl = build_config(
        Some("worker".to_string()),
        Some("p".to_string()),
        Some("p-123".to_string()),
        Some("soon".to_string()),
    );
    assert_eq!(unreadable_ttl.unwrap_err(), ConfigError::InvalidTtl);

    let no_name = build_config(
        None,
        Some("p".to_string()),
        Some("p-123".to_string()),
        Some("60".to_string()),
    );
    assert_eq!(no_name.unwrap_err(), ConfigError::MissingWorkerRoleName);

    let no_path = build_config(
        Some("worker".to_string()),
        None,
        Some("p-123".to_string()),
        Some("60".to_string()),
    );
    assert_eq!(no_path.unwrap_err(), ConfigError::MissingWorkerRolePath);

    let no_policy = build_config(
        Some("worker".to_string()),
        Some("p".to_string()),
        None,
        Some("60".to_string()),
    );
    assert_eq!(no_policy.unwrap_err(), ConfigError::MissingPolicyId);
}

#[test]
fn mirror_role_names_follow_the_permission_set() {
    assert_eq!(
        mirror_role_name("AWSReservedSSO_StorageAdmin_abc123"),
        Some("tagctl-mirror-StorageAdmin".to_string())
    );
    assert_eq!(mirror_role_name("OrdinaryRole"), None);
    assert_eq!(mirror_role_name("AWSReservedSSO_TooMany_parts_here"), None);
    assert_eq!(mirror_role_name("Wrong_Prefix_here"), None);
}

#[test]
fn sso_paths_are_recognised() {
    assert!(is_sso_role_path("/aws-reserved/sso.amazonaws.com/eu-west-1/"));
    assert!(!is_sso_role_path("/teams/storage/"));
}

#[test]
fn caller_identity_comes_from_an_assumed_role_arn() {
    let caller = caller_names("arn:aws:sts::123456789012:assumed-role/StorageAdmin/alice");
    let (role, session) = caller.unwrap();
    assert_eq!(role, "StorageAdmin");
    assert_eq!(session, "alice");
    assert_eq!(parse_caller_resource("user/alice"), None);
    assert_eq!(caller_names("not an arn"), None);
}

#[test]
fn granted_tickets_expire_after_one_hour() {
    let t = grant_ticket("alice".to_string(), "bob".to_string(), 1_000_000);
    assert_eq!(t.giver.0, "alice");
    assert_eq!(t.receiver.0, "bob");
    assert_eq!(t.expires_at(), Some(1_003_600));
}

#[test]
fn session_duration_is_capped_and_has_a_floor() {
    assert_eq!(session_duration(None), 900);
    assert_eq!(session_duration(Some(1800)), 1800);
    assert_eq!(session_duration(Some(43200)), 3600);
}
