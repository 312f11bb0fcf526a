//! Decisions of the command-line flows: who the caller is, which
//! mirror role a delegated session may assume, and the ticket a
//! granting flow writes.

use vstd::prelude::*;

use crate::text::has_prefix;
use crate::text::join_with;
use crate::text::parse_i64_spec;
use crate::text::split_char;
use crate::text::split_on;
use crate::text::str_eq;
use crate::text::str_has_prefix;
use crate::ticket::ApprovalTicket;
use crate::ticket::HumanIdentity;

verus! {

/// The path every SSO-managed role carries.
pub const SSO_ROLE_PATH_PREFIX: &'static str = "/aws-reserved/sso.amazonaws.com/";

/// Mirror roles are named after the permission set they mirror.
pub const MIRROR_ROLE_NAME_PREFIX: &'static str = "tagctl-mirror-";

/// Whether a role lives under the SSO-managed path; only such a role
/// may assume its mirror.
pub fn is_sso_role_path(path: &str) -> (r: bool)
    ensures
        r == has_prefix(path@, SSO_ROLE_PATH_PREFIX@),
{
    str_has_prefix(path, SSO_ROLE_PATH_PREFIX)
}

/// The mirror role of an SSO role named
/// `AWSReservedSSO_<PERMSET>_<UID>`: the mirror prefix and the
/// permission set; `None` for any other shape of name.
pub fn mirror_role_name(role_name: &str) -> (r: Option<String>)
    ensures
        ({
            let toks = split_on(role_name@, '_');
            match r {
                Some(name) => toks.len() == 3 && toks[0] == "AWSReservedSSO"@ && name@
                    == MIRROR_ROLE_NAME_PREFIX@ + toks[1],
                None => !(toks.len() == 3 && toks[0] == "AWSReservedSSO"@),
            }
        }),
{
    let crumbs = split_char(role_name, '_');
    proof {
        assert(forall|i: int|
            0 <= i < crumbs@.len() ==> split_on(role_name@, '_')[i] == (
            #[trigger] crumbs@[i])@);
    }
    if crumbs.len() != 3 {
        return None;
    }
    if !str_eq(crumbs[0].as_str(), "AWSReservedSSO") {
        return None;
    }
    let mut out = MIRROR_ROLE_NAME_PREFIX.to_owned();
    out.append(crumbs[1].as_str());
    Some(out)
}

/// The role and session of an assumed-role caller, read from its
/// resource part `assumed-role/<role>/<session>`; `None` for any other
/// caller kind.
pub fn parse_caller_resource(resource: &str) -> (r: Option<(String, String)>)
    ensures
        ({
            let toks = split_on(resource@, '/');
            match r {
                Some(pair) => toks.len() == 3 && toks[0] == "assumed-role"@ && pair.0@ == toks[1]
                    && pair.1@ == toks[2],
                None => !(toks.len() == 3 && toks[0] == "assumed-role"@),
            }
        }),
{
    let mut crumbs = split_char(resource, '/');
    proof {
        assert(forall|i: int|
            0 <= i < crumbs@.len() ==> split_on(resource@, '/')[i] == (
            #[trigger] crumbs@[i])@);
    }
    if crumbs.len() != 3 {
        return None;
    }
    if !str_eq(crumbs[0].as_str(), "assumed-role") {
        return None;
    }
    let session = match crumbs.pop() {
        Some(s) => s,
        None => {
            return None;
        },
    };
    let role = match crumbs.pop() {
        Some(s) => s,
        None => {
            return None;
        },
    };
    Some((role, session))
}

/// Whether aws_arn::ResourceName::from_str accepts the string as an
/// ARN; acceptance is a function of the characters alone.
pub uninterp spec fn arn_accepted(s: Seq<char>) -> bool;

/// Relies on aws_arn::ResourceName::from_str: it accepts or refuses the
/// string by its characters alone, and on acceptance the `resource`
/// field holds, verbatim, everything after the fifth colon of the ARN,
/// whose first colon-part is the literal `arn`.
#[verifier::external_body]
fn arn_resource_part(arn: &str) -> (r: Option<String>)
    ensures
        (r is Some) == arn_accepted(arn@),
        match r {
            Some(res) => {
                &&& split_on(arn@, ':').len() >= 6
                &&& split_on(arn@, ':')[0] == "arn"@
                &&& res@ == join_with(split_on(arn@, ':').skip(5), ':')
            },
            None => true,
        },
{
    arn.parse::<aws_arn::ResourceName>().ok().map(|rn| rn.resource.to_string())
}

/// The caller's role and session names, read from its ARN: exactly when
/// the string is an accepted ARN whose resource part names an assumed
/// role, `assumed-role/<role>/<session>`.
pub fn caller_names(arn: &str) -> (r: Option<(String, String)>)
    ensures
        ({
            let toks = split_on(join_with(split_on(arn@, ':').skip(5), ':'), '/');
            match r {
                Some(pair) => {
                    &&& arn_accepted(arn@)
                    &&& split_on(arn@, ':').len() >= 6
                    &&& toks.len() == 3
                    &&& toks[0] == "assumed-role"@
                    &&& pair.0@ == toks[1]
                    &&& pair.1@ == toks[2]
                },
                None => !arn_accepted(arn@) || !(toks.len() == 3 && toks[0] == "assumed-role"@),
            }
        }),
{
    match arn_resource_part(arn) {
        Some(res) => parse_caller_resource(res.as_str()),
        None => None,
    }
}

/// The ticket a granting flow writes: the giver, the receiver, and one
/// hour of validity from now.
pub fn grant_ticket(giver: String, receiver: String, now: i64) -> (t: ApprovalTicket)
    requires
        now + 3600 <= i64::MAX,
    ensures
        t.wf(),
        t.giver.0@ == giver@,
        t.receiver.0@ == receiver@,
        t.attrs_map().contains_key("exp"@),
        parse_i64_spec(t.attrs_map()["exp"@]) == Some(now + 3600),
        t.attrs_map() == Map::<Seq<char>, Seq<char>>::empty().insert(
            "exp"@,
            t.attrs_map()["exp"@],
        ),
{
    ApprovalTicket::new(HumanIdentity::new(giver), HumanIdentity::new(receiver)).set_expiry(
        now + 3600,
    )
}

/// Role chaining caps a session at 3600 seconds; 900 seconds is the
/// global minimum and serves as the fallback when the mirror role does
/// not declare a maximum of its own.
pub fn session_duration(max_session: Option<i32>) -> (r: i32)
    ensures
        r == match max_session {
            Option::None => 900,
            Option::Some(d) => if d < 3600 {
                d as int
            } else {
                3600
            },
        },
{
    match max_session {
        None => 900,
        Some(d) => {
            if d < 3600 {
                d
            } else {
                3600
            }
        },
    }
}

} // verus!
