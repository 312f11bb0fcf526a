//! The sweep's configuration, validated once at process entry and then
//! passed by reference — no ambient state.

use vstd::prelude::*;

use crate::text::parse_i64;
use crate::text::parse_i64_spec;
use crate::text::trim_char;
use crate::text::trim_matching;

verus! {

/// Why the configuration is refused at startup.
#[derive(Debug, Clone, Copy, PartialEq, Eq, Structural)]
pub enum ConfigError {
    /// The maximum ticket lifetime is absent, unreadable, or not
    /// positive.
    InvalidTtl,
    /// The worker role's name is absent or empty.
    MissingWorkerRoleName,
    /// The worker role's path is absent or empty.
    MissingWorkerRolePath,
    /// The control-tagging policy id is absent or empty.
    MissingPolicyId,
}

/// What the sweep needs to run: the worker role assumed inside each
/// target account, the policy whose targets bound the scope, and the
/// permitted maximum ticket lifetime.
#[derive(Debug, Clone, PartialEq)]
pub struct AppConfig {
    pub role_name: String,
    /// Kept without its surrounding slashes, as role ARNs are built.
    pub role_path: String,
    pub control_tags_scp_id: String,
    pub max_ticket_ttl_seconds: i64,
}

/// Whether the lifetime text reads as a positive number of seconds.
pub open spec fn ttl_ok(ttl_text: Option<String>) -> bool {
    match ttl_text {
        Some(t) => match parse_i64_spec(t@) {
            Some(v) => v > 0,
            None => false,
        },
        None => false,
    }
}

/// A present, non-empty value.
pub open spec fn value_ok(v: Option<String>) -> bool {
    match v {
        Some(s) => s@.len() > 0,
        None => false,
    }
}

/// Validates the configuration values handed in from the environment:
/// every value must be present and non-empty, the lifetime positive;
/// the role path is stripped of its surrounding slashes.
pub fn build_config(
    role_name: Option<String>,
    role_path: Option<String>,
    scp_id: Option<String>,
    ttl_text: Option<String>,
) -> (r: Result<AppConfig, ConfigError>)
    ensures
        match r {
            Ok(c) => {
                &&& ttl_ok(ttl_text)
                &&& value_ok(role_name)
                &&& value_ok(role_path)
                &&& value_ok(scp_id)
                &&& Some(c.max_ticket_ttl_seconds as int) == parse_i64_spec(
                    ttl_text->Some_0@,
                )
                &&& c.max_ticket_ttl_seconds > 0
                &&& c.role_name@ == role_name->Some_0@
                &&& c.role_path@ == trim_char(role_path->Some_0@, '/')
                &&& c.control_tags_scp_id@ == scp_id->Some_0@
            },
            Err(ConfigError::InvalidTtl) => !ttl_ok(ttl_text),
            Err(ConfigError::MissingWorkerRoleName) => ttl_ok(ttl_text) && !value_ok(role_name),
            Err(ConfigError::MissingWorkerRolePath) => ttl_ok(ttl_text) && value_ok(role_name)
                && !value_ok(role_path),
            Err(ConfigError::MissingPolicyId) => ttl_ok(ttl_text) && value_ok(role_name)
                && value_ok(role_path) && !value_ok(scp_id),
        },
{
    let ttl = match ttl_text {
        None => {
            return Err(ConfigError::InvalidTtl);
        },
        Some(t) => match parse_i64(t.as_str()) {
            Some(v) => {
                if v > 0 {
                    v
                } else {
                    return Err(ConfigError::InvalidTtl);
                }
            },
            None => {
                return Err(ConfigError::InvalidTtl);
            },
        },
    };
    let role_name = match role_name {
        Some(n) => {
            if n.as_str().unicode_len() == 0 {
                return Err(ConfigError::MissingWorkerRoleName);
            } else {
                n
            }
        },
        None => {
            return Err(ConfigError::MissingWorkerRoleName);
        },
    };
    let role_path = match role_path {
        Some(p) => {
            if p.as_str().unicode_len() == 0 {
                return Err(ConfigError::MissingWorkerRolePath);
            } else {
                p
            }
        },
        None => {
            return Err(ConfigError::MissingWorkerRolePath);
        },
    };
    let scp_id = match scp_id {
        Some(s) => {
            if s.as_str().unicode_len() == 0 {
                return Err(ConfigError::MissingPolicyId);
            } else {
                s
            }
        },
        None => {
            return Err(ConfigError::MissingPolicyId);
        },
    };
    let trimmed = trim_matching(role_path.as_str(), '/');
    Ok(
        AppConfig {
            role_name,
            role_path: trimmed,
            control_tags_scp_id: scp_id,
            max_ticket_ttl_seconds: ttl,
        },
    )
}

} // verus!
