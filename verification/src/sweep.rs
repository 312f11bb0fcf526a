//! The stale-grant eviction sweep: the staleness policy, the bulk
//! revocation over one principal kind, and the discovery of the
//! accounts in scope across the organisation tree.

use vstd::prelude::*;

use crate::clock::now_unix_seconds;
use crate::clock::timestamp_in_range;
use crate::directory::remove_key_pairs;
use crate::directory::PrincipalDirectory;
use crate::manager::ApprovalManager;
use crate::manager::ListAllTicketsError;
use crate::tags::KEY_ADMIN_TICKET;
use crate::text::parse_i64_spec;
use crate::text::views_of;
use crate::ticket::ApprovalTicket;
use crate::ticket::TicketModel;

verus! {

/// The declared expiry a ticket model carries: the `exp` attribute when
/// it parses as representable Unix seconds, nothing otherwise.
pub open spec fn expiry_of(m: TicketModel) -> Option<int> {
    if m.attrs.contains_key("exp"@) {
        match parse_i64_spec(m.attrs["exp"@]) {
            Some(v) => if timestamp_in_range(v) {
                Some(v)
            } else {
                None
            },
            None => None,
        }
    } else {
        None
    }
}

/// The staleness policy: a ticket is evictable when it declares no
/// readable expiry, is already expired, or expires suspiciously far out
/// — at or beyond the permitted maximum lifetime.
pub open spec fn evictable_spec(m: TicketModel, now: int, max_ttl: int) -> bool {
    match expiry_of(m) {
        None => true,
        Some(ts) => ts - now <= 0 || ts - now >= max_ttl,
    }
}

/// Applies the staleness policy at a given instant.
pub fn is_evictable_at(ticket: &ApprovalTicket, now: i64, max_ttl: i64) -> (r: bool)
    requires
        ticket.wf(),
    ensures
        r == evictable_spec(ticket.model(), now as int, max_ttl as int),
{
    match ticket.expires_at() {
        None => true,
        Some(ts) => {
            let ttl: i128 = (ts as i128) - (now as i128);
            ttl <= 0 || ttl >= (max_ttl as i128)
        },
    }
}

/// Applies the staleness policy at the present moment, read from the
/// wall clock.
pub fn is_evictable(ticket: &ApprovalTicket, max_ttl: i64) -> (r: bool)
    requires
        ticket.wf(),
    ensures
        exists|now: int|
            timestamp_in_range(now) && r == evictable_spec(ticket.model(), now, max_ttl as int),
{
    let now = now_unix_seconds();
    is_evictable_at(ticket, now, max_ttl)
}

/// The stale entries of an enumeration, in order.
pub open spec fn stale_filter(
    listing: Seq<(Seq<char>, TicketModel)>,
    now: int,
    max_ttl: int,
) -> Seq<(Seq<char>, TicketModel)>
    decreases listing.len(),
{
    if listing.len() == 0 {
        Seq::<(Seq<char>, TicketModel)>::empty()
    } else {
        let rest = stale_filter(listing.drop_last(), now, max_ttl);
        if evictable_spec(listing.last().1, now, max_ttl) {
            rest.push(listing.last())
        } else {
            rest
        }
    }
}

/// Sweeps one principal kind: lists every ticket, applies the
/// staleness policy, unsets each stale one, and returns the stale
/// pairs.  One principal's failing unset is logged by the caller and
/// fails nothing else; a non-stale ticket is never touched.
pub fn evict_invalid_tickets<D: PrincipalDirectory>(
    manager: &mut ApprovalManager<D>,
    now: i64,
    max_ttl: i64,
) -> (r: Result<Vec<(String, ApprovalTicket)>, ListAllTicketsError>)
    ensures
        match r {
            Ok(v) => {
                &&& !old(manager).directory.listing_fails()
                &&& crate::manager::pair_models(v@) == stale_filter(
                    old(manager).ticket_listing(old(manager).directory.names()),
                    now as int,
                    max_ttl as int,
                )
                &&& forall|i: int|
                    0 <= i < v@.len() ==> {
                        &&& old(manager).directory.names().contains((#[trigger] v@[i]).0@)
                        &&& v@[i].1.wf()
                        &&& old(manager).principal_ticket(v@[i].0@) == Some(v@[i].1.model())
                        &&& evictable_spec(v@[i].1.model(), now as int, max_ttl as int)
                    }
                &&& forall|j: int|
                    0 <= j < old(manager).directory.names().len() && !old(
                        manager,
                    ).directory.failing(#[trigger] old(manager).directory.names()[j]) && (match old(
                        manager,
                    ).principal_ticket(old(manager).directory.names()[j]) {
                        Some(m) => evictable_spec(m, now as int, max_ttl as int),
                        None => false,
                    }) ==> exists|i: int|
                        0 <= i < v@.len() && (#[trigger] v@[i]).0@ == old(
                            manager,
                        ).directory.names()[j]
                &&& forall|i: int|
                    0 <= i < v@.len() && !old(manager).directory.failing((#[trigger] v@[i]).0@)
                        ==> final(manager).directory.tags_of(v@[i].0@) == remove_key_pairs(
                        old(manager).directory.tags_of(v@[i].0@),
                        KEY_ADMIN_TICKET@,
                    )
                &&& forall|q: Seq<char>|
                    #[trigger] final(manager).directory.tags_of(q) == old(
                        manager,
                    ).directory.tags_of(q) || final(manager).directory.tags_of(q)
                        == remove_key_pairs(old(manager).directory.tags_of(q), KEY_ADMIN_TICKET@)
                &&& forall|q: Seq<char>|
                    (match old(manager).principal_ticket(q) {
                        Some(m) => !evictable_spec(m, now as int, max_ttl as int),
                        None => false,
                    }) ==> #[trigger] final(manager).directory.tags_of(q) == old(
                        manager,
                    ).directory.tags_of(q)
                &&& final(manager).directory.names() == old(manager).directory.names()
                &&& final(manager).directory.listing_fails() == old(
                    manager,
                ).directory.listing_fails()
                &&& forall|q: Seq<char>|
                    final(manager).directory.failing(q) == old(manager).directory.failing(q)
            },
            Err(e) => old(manager).directory.listing_fails() && *final(manager) == *old(manager)
                && e == ListAllTicketsError::InternalError(
                crate::directory::DirectoryError::Transport,
            ),
        },
{
    let listed = match manager.list_all_tickets() {
        Ok(listed) => listed,
        Err(e) => {
            return Err(e);
        },
    };
    let n = listed.len();
    let mut out: Vec<(String, ApprovalTicket)> = Vec::new();
    let mut i: usize = 0;
    proof {
        assert(crate::manager::pair_models(listed@).take(0) =~= Seq::<
            (Seq<char>, TicketModel),
        >::empty());
        assert(crate::manager::pair_models(out@) =~= stale_filter(
            crate::manager::pair_models(listed@).take(0),
            now as int,
            max_ttl as int,
        ));
    }
    while i < n
        invariant
            0 <= i <= n,
            n == listed@.len(),
            !old(manager).directory.listing_fails(),
            crate::manager::pair_models(listed@) == old(manager).ticket_listing(
                old(manager).directory.names(),
            ),
            crate::manager::pair_models(out@) == stale_filter(
                crate::manager::pair_models(listed@).take(i as int),
                now as int,
                max_ttl as int,
            ),
            forall|k: int|
                0 <= k < listed@.len() ==> {
                    &&& old(manager).directory.names().contains((#[trigger] listed@[k]).0@)
                    &&& !old(manager).directory.failing(listed@[k].0@)
                    &&& listed@[k].1.wf()
                    &&& old(manager).principal_ticket(listed@[k].0@) == Some(listed@[k].1.model())
                },
            forall|j: int|
                0 <= j < old(manager).directory.names().len() && !old(manager).directory.failing(
                    #[trigger] old(manager).directory.names()[j],
                ) && old(manager).principal_ticket(old(manager).directory.names()[j]) is Some
                    ==> exists|k: int|
                    0 <= k < listed@.len() && (#[trigger] listed@[k]).0@ == old(
                        manager,
                    ).directory.names()[j] && Some(listed@[k].1.model()) == old(
                        manager,
                    ).principal_ticket(old(manager).directory.names()[j]),
            forall|k: int|
                0 <= k < out@.len() ==> {
                    &&& old(manager).directory.names().contains((#[trigger] out@[k]).0@)
                    &&& out@[k].1.wf()
                    &&& old(manager).principal_ticket(out@[k].0@) == Some(out@[k].1.model())
                    &&& evictable_spec(out@[k].1.model(), now as int, max_ttl as int)
                },
            forall|k: int|
                0 <= k < i && evictable_spec(
                    (#[trigger] listed@[k]).1.model(),
                    now as int,
                    max_ttl as int,
                ) ==> exists|m: int| 0 <= m < out@.len() && (#[trigger] out@[m]).0@ == listed@[k].0@,
            forall|k: int|
                0 <= k < out@.len() && !old(manager).directory.failing((#[trigger] out@[k]).0@)
                    ==> manager.directory.tags_of(out@[k].0@) == remove_key_pairs(
                    old(manager).directory.tags_of(out@[k].0@),
                    KEY_ADMIN_TICKET@,
                ),
            forall|q: Seq<char>|
                #[trigger] manager.directory.tags_of(q) == old(manager).directory.tags_of(q)
                    || manager.directory.tags_of(q) == remove_key_pairs(
                    old(manager).directory.tags_of(q),
                    KEY_ADMIN_TICKET@,
                ),
            forall|q: Seq<char>|
                (match old(manager).principal_ticket(q) {
                    Some(m) => !evictable_spec(m, now as int, max_ttl as int),
                    None => false,
                }) ==> #[trigger] manager.directory.tags_of(q) == old(manager).directory.tags_of(
                    q,
                ),
            manager.directory.names() == old(manager).directory.names(),
            manager.directory.listing_fails() == old(manager).directory.listing_fails(),
            forall|q: Seq<char>|
                manager.directory.failing(q) == old(manager).directory.failing(q)
                    && manager.directory.has_principal(q) == old(manager).directory.has_principal(
                    q,
                ),
        decreases n - i,
    {
        let ghost prior = out@;
        let ghost pm = crate::manager::pair_models(listed@);
        proof {
            assert(pm.take(i + 1).drop_last() =~= pm.take(i as int));
            assert(pm.take(i + 1).last() == pm[i as int]);
            assert(pm[i as int] == (listed@[i as int].0@, listed@[i as int].1.model()));
        }
        let evict = is_evictable_at(&listed[i].1, now, max_ttl);
        if evict {
            let ghost p = listed@[i as int].0@;
            let ghost before_tags = manager.directory.tags_of(p);
            match manager.unset_ticket(listed[i].0.as_str()) {
                Ok(()) => {
                    proof {
                        if before_tags == old(manager).directory.tags_of(p) {
                        } else {
                            crate::directory::lemma_remove_key_idempotent(
                                old(manager).directory.tags_of(p),
                                KEY_ADMIN_TICKET@,
                            );
                        }
                    }
                },
                Err(_) => {
                    proof {
                        manager.directory.principals_are_named(p);
                    }
                },
            }
            let name = listed[i].0.clone();
            let ticket = clone_ticket(&listed[i].1);
            out.push((name, ticket));
            proof {
                assert(forall|k: int| 0 <= k < prior.len() ==> (#[trigger] out@[k]) == prior[k]);
                assert(out@[prior.len() as int].0@ == p);
                assert(out@[prior.len() as int].1.model() == listed@[i as int].1.model());
                assert(crate::manager::pair_models(out@) =~= crate::manager::pair_models(
                    prior,
                ).push(pm[i as int]));
            }
        }
        proof {
            assert(forall|k: int| 0 <= k < prior.len() ==> (#[trigger] out@[k]) == prior[k]);
            assert forall|k: int|
                0 <= k < i + 1 && evictable_spec(
                    (#[trigger] listed@[k]).1.model(),
                    now as int,
                    max_ttl as int,
                ) implies exists|m: int|
                0 <= m < out@.len() && (#[trigger] out@[m]).0@ == listed@[k].0@ by {
                if k < i {
                    let m = choose|m: int|
                        0 <= m < prior.len() && (#[trigger] prior[m]).0@ == listed@[k].0@;
                    assert(out@[m] == prior[m]);
                } else if out@.len() > prior.len() {
                    assert(out@[prior.len() as int].0@ == listed@[k].0@);
                }
            }
        }
        i += 1;
    }
    proof {
        assert(crate::manager::pair_models(listed@).take(n as int) =~= crate::manager::pair_models(
            listed@,
        ));
        assert forall|j: int|
            0 <= j < old(manager).directory.names().len() && !old(manager).directory.failing(
                #[trigger] old(manager).directory.names()[j],
            ) && (match old(manager).principal_ticket(old(manager).directory.names()[j]) {
                Some(m) => evictable_spec(m, now as int, max_ttl as int),
                None => false,
            }) implies exists|i2: int|
            0 <= i2 < out@.len() && (#[trigger] out@[i2]).0@ == old(manager).directory.names()[j]
            by {
            let k = choose|k: int|
                0 <= k < listed@.len() && (#[trigger] listed@[k]).0@ == old(
                    manager,
                ).directory.names()[j] && Some(listed@[k].1.model()) == old(
                    manager,
                ).principal_ticket(old(manager).directory.names()[j]);
            assert(evictable_spec(listed@[k].1.model(), now as int, max_ttl as int));
        }
    }
    Ok(out)
}

/// A node of the organisation tree: an account is a leaf, a root or
/// organisational unit holds further nodes.
pub enum OrgNode {
    Account { id: String },
    Unit { id: String, children: Vec<OrgNode> },
}

/// The ids of every account under a node, left to right.
pub open spec fn account_ids(n: OrgNode) -> Seq<Seq<char>>
    decreases n,
{
    match n {
        OrgNode::Account { id } => seq![id@],
        OrgNode::Unit { id, children } => account_ids_list(children@),
    }
}

/// The ids of every account under a node list, left to right.
pub open spec fn account_ids_list(ns: Seq<OrgNode>) -> Seq<Seq<char>>
    decreases ns,
{
    if ns.len() == 0 {
        Seq::<Seq<char>>::empty()
    } else {
        account_ids(ns[0]) + account_ids_list(ns.skip(1))
    }
}

/// The work left in a node: one unit for the node and one for each
/// descendant.
spec fn node_weight(n: OrgNode) -> nat
    decreases n,
{
    match n {
        OrgNode::Account { id } => 1,
        OrgNode::Unit { id, children } => 1 + list_weight(children@),
    }
}

spec fn list_weight(ns: Seq<OrgNode>) -> nat
    decreases ns,
{
    if ns.len() == 0 {
        0
    } else {
        node_weight(ns[0]) + list_weight(ns.skip(1))
    }
}

/// The account ids still to be produced by a work stack, top first.
spec fn stack_ids(st: Seq<&OrgNode>) -> Seq<Seq<char>>
    decreases st.len(),
{
    if st.len() == 0 {
        Seq::<Seq<char>>::empty()
    } else {
        account_ids(*st.last()) + stack_ids(st.drop_last())
    }
}

/// The work left on a stack.
spec fn stack_weight(st: Seq<&OrgNode>) -> nat
    decreases st.len(),
{
    if st.len() == 0 {
        0
    } else {
        node_weight(*st.last()) + stack_weight(st.drop_last())
    }
}

/// Walks the tree under a node with an explicit work stack — bounded
/// memory on pathological shapes — and yields every account id under
/// it, in order, each as often as it stands in the tree: exactly once
/// when the tree's account ids are distinct.
pub fn accounts_under(root: &OrgNode) -> (r: Vec<String>)
    ensures
        views_of(r@) == account_ids(*root),
{
    let mut out: Vec<String> = Vec::new();
    let mut stack: Vec<&OrgNode> = Vec::new();
    stack.push(root);
    proof {
        assert(stack@.len() == 1);
        assert(*stack@.last() == *root);
        assert(stack@.drop_last() =~= Seq::<&OrgNode>::empty());
        assert(stack_ids(stack@.drop_last()) == Seq::<Seq<char>>::empty());
        assert(stack_ids(stack@) == account_ids(*root) + stack_ids(stack@.drop_last()));
        assert(views_of(out@) =~= Seq::<Seq<char>>::empty());
        assert(views_of(out@) + stack_ids(stack@) =~= account_ids(*root));
    }
    while stack.len() > 0
        invariant
            views_of(out@) + stack_ids(stack@) == account_ids(*root),
        decreases stack_weight(stack@),
    {
        let ghost st0 = stack@;
        let node = match stack.pop() {
            Some(node) => node,
            None => {
                return out;
            },
        };
        proof {
            assert(st0.drop_last() =~= stack@);
            assert(*st0.last() == *node);
        }
        match node {
            OrgNode::Account { id } => {
                let ghost before = views_of(out@);
                out.push(id.clone());
                proof {
                    assert(views_of(out@) =~= before.push(id@));
                    assert(account_ids(*node) == seq![id@]);
                    assert(views_of(out@) + stack_ids(stack@) =~= before + account_ids(*node)
                        + stack_ids(stack@));
                }
            },
            OrgNode::Unit { id, children } => {
                let n = children.len();
                let mut j: usize = n;
                proof {
                    assert(children@.skip(n as int) =~= Seq::<OrgNode>::empty());
                }
                while j > 0
                    invariant
                        0 <= j <= n,
                        n == children@.len(),
                        stack_ids(stack@) == account_ids_list(children@.skip(j as int))
                            + stack_ids(st0.drop_last()),
                        stack_weight(stack@) == list_weight(children@.skip(j as int))
                            + stack_weight(st0.drop_last()),
                    decreases j,
                {
                    let ghost st1 = stack@;
                    stack.push(&children[j - 1]);
                    proof {
                        assert(stack@.drop_last() =~= st1);
                        assert(*stack@.last() == children@[j - 1]);
                        assert(children@.skip(j - 1)[0] == children@[j - 1]);
                        assert(children@.skip(j - 1).skip(1) =~= children@.skip(j as int));
                    }
                    j -= 1;
                }
                proof {
                    assert(children@.skip(0) =~= children@);
                    assert(account_ids(*node) == account_ids_list(children@));
                    assert(node_weight(*node) == 1 + list_weight(children@));
                }
            },
        }
    }
    proof {
        assert(stack_ids(stack@) =~= Seq::<Seq<char>>::empty());
        assert(views_of(out@) + stack_ids(stack@) =~= views_of(out@));
    }
    out
}

/// Traversal completeness: over a tree whose account ids are distinct,
/// the walk yields exactly the set of account ids reachable from the
/// node, each exactly once.
pub proof fn lemma_traversal_exactly_once(root: OrgNode, walked: Seq<Seq<char>>)
    requires
        walked == account_ids(root),
        account_ids(root).no_duplicates(),
    ensures
        walked.no_duplicates(),
        walked.to_set() == account_ids(root).to_set(),
        forall|id: Seq<char>| walked.contains(id) <==> account_ids(root).contains(id),
{
}

/// One target a control policy is attached to, as scope discovery sees
/// it: an account directly in scope, a root or organisational unit
/// whose whole subtree is, or a target of a kind discovery does not
/// know and passes over with a warning.
pub enum PolicyTarget {
    Account { id: String },
    Subtree { root: OrgNode },
    Unknown { id: String },
}

/// The accounts one target puts in scope.
pub open spec fn target_ids(t: PolicyTarget) -> Seq<Seq<char>> {
    match t {
        PolicyTarget::Account { id } => seq![id@],
        PolicyTarget::Subtree { root } => account_ids(root),
        PolicyTarget::Unknown { id } => Seq::<Seq<char>>::empty(),
    }
}

/// The accounts a target list puts in scope, in order.
pub open spec fn discovered_ids(ts: Seq<PolicyTarget>) -> Seq<Seq<char>>
    decreases ts.len(),
{
    if ts.len() == 0 {
        Seq::<Seq<char>>::empty()
    } else {
        discovered_ids(ts.drop_last()) + target_ids(ts.last())
    }
}

/// Discovers every account a policy's targets put in scope: accounts
/// directly, subtrees in full, unknown target kinds skipped.
pub fn discover_accounts(targets: &Vec<PolicyTarget>) -> (r: Vec<String>)
    ensures
        views_of(r@) == discovered_ids(targets@),
{
    let n = targets.len();
    let mut out: Vec<String> = Vec::new();
    let mut i: usize = 0;
    proof {
        assert(targets@.take(0) =~= Seq::<PolicyTarget>::empty());
        assert(views_of(out@) =~= discovered_ids(targets@.take(0)));
    }
    while i < n
        invariant
            0 <= i <= n,
            n == targets@.len(),
            views_of(out@) == discovered_ids(targets@.take(i as int)),
        decreases n - i,
    {
        let ghost before = views_of(out@);
        proof {
            assert(targets@.take(i + 1).drop_last() =~= targets@.take(i as int));
            assert(targets@.take(i + 1).last() == targets@[i as int]);
        }
        match &targets[i] {
            PolicyTarget::Account { id } => {
                out.push(id.clone());
                proof {
                    assert(views_of(out@) =~= before.push(id@));
                    assert(views_of(out@) =~= before + target_ids(targets@[i as int]));
                }
            },
            PolicyTarget::Subtree { root } => {
                let mut sub = accounts_under(root);
                let ghost sub_views = views_of(sub@);
                out.append(&mut sub);
                proof {
                    assert(views_of(out@) =~= before + sub_views);
                }
            },
            PolicyTarget::Unknown { id } => {
                proof {
                    assert(views_of(out@) =~= before + target_ids(targets@[i as int]));
                }
            },
        }
        i += 1;
    }
    proof {
        assert(targets@.take(n as int) =~= targets@);
    }
    out
}

/// The views of dispatch outcomes.
pub open spec fn outcome_views(os: Seq<(String, bool)>) -> Seq<(Seq<char>, bool)> {
    os.map_values(|o: (String, bool)| (o.0@, o.1))
}

/// The accounts whose eviction job was dispatched, in order.
pub open spec fn dispatched_of(os: Seq<(Seq<char>, bool)>) -> Seq<Seq<char>>
    decreases os.len(),
{
    if os.len() == 0 {
        Seq::<Seq<char>>::empty()
    } else {
        dispatched_of(os.drop_last()) + (if os.last().1 {
            seq![os.last().0]
        } else {
            Seq::<Seq<char>>::empty()
        })
    }
}

/// Collects the accounts whose eviction job was dispatched.  One
/// account's dispatch failure keeps that account out of the summary and
/// nothing else: every account dispatched is reported.
pub fn dispatched_accounts(outcomes: &Vec<(String, bool)>) -> (r: Vec<String>)
    ensures
        views_of(r@) == dispatched_of(outcome_views(outcomes@)),
        forall|i: int|
            0 <= i < outcomes@.len() && (#[trigger] outcomes@[i]).1 ==> exists|k: int|
                0 <= k < r@.len() && (#[trigger] r@[k])@ == outcomes@[i].0@,
{
    let n = outcomes.len();
    let mut out: Vec<String> = Vec::new();
    let mut i: usize = 0;
    proof {
        assert(outcome_views(outcomes@).take(0) =~= Seq::<(Seq<char>, bool)>::empty());
        assert(views_of(out@) =~= dispatched_of(outcome_views(outcomes@).take(0)));
    }
    while i < n
        invariant
            0 <= i <= n,
            n == outcomes@.len(),
            views_of(out@) == dispatched_of(outcome_views(outcomes@).take(i as int)),
            forall|j: int|
                0 <= j < i && (#[trigger] outcomes@[j]).1 ==> exists|k: int|
                    0 <= k < out@.len() && (#[trigger] out@[k])@ == outcomes@[j].0@,
        decreases n - i,
    {
        let ghost prior = out@;
        let ghost before = views_of(out@);
        proof {
            assert(outcome_views(outcomes@).take(i + 1).drop_last() =~= outcome_views(
                outcomes@,
            ).take(i as int));
            assert(outcome_views(outcomes@).take(i + 1).last() == outcome_views(outcomes@)[i as int]);
        }
        if outcomes[i].1 {
            out.push(outcomes[i].0.clone());
            proof {
                assert(views_of(out@) =~= before.push(outcomes@[i as int].0@));
                assert(views_of(out@) =~= before + seq![outcome_views(outcomes@)[i as int].0]);
                assert(out@[prior.len() as int]@ == outcomes@[i as int].0@);
            }
        } else {
            proof {
                assert(views_of(out@) =~= before + Seq::<Seq<char>>::empty());
            }
        }
        proof {
            assert(forall|k: int| 0 <= k < prior.len() ==> (#[trigger] out@[k]) == prior[k]);
            assert forall|j: int| 0 <= j < i + 1 && (#[trigger] outcomes@[j]).1 implies exists|
                k: int,
            | 0 <= k < out@.len() && (#[trigger] out@[k])@ == outcomes@[j].0@ by {
                if j < i {
                    let k = choose|k: int|
                        0 <= k < prior.len() && (#[trigger] prior[k])@ == outcomes@[j].0@;
                    assert(out@[k] == prior[k]);
                } else if out@.len() > prior.len() {
                    assert(out@[prior.len() as int]@ == outcomes@[j].0@);
                }
            }
        }
        i += 1;
    }
    proof {
        assert(outcome_views(outcomes@).take(n as int) =~= outcome_views(outcomes@));
    }
    out
}

/// What a scheduled trigger asks of the sweep.
#[derive(Debug, Clone, PartialEq)]
pub enum SweepRequest {
    /// Phase one: discover the accounts in scope and dispatch one
    /// eviction job for each.
    ScheduleApprovalEviction {},
    /// Phase two: evict the stale tickets of one account.
    EvictStaleApprovals { account_id: String },
}

/// What the sweep answers.
#[derive(Debug, Clone, PartialEq)]
pub enum SweepResponse {
    /// The accounts whose eviction was dispatched.
    DiscoveredAccounts(Vec<String>),
    /// The stale tickets evicted in one account, by principal kind.
    EvictionSummary {
        users: Vec<(String, ApprovalTicket)>,
        roles: Vec<(String, ApprovalTicket)>,
    },
}

/// Deep-copies a ticket: same model, same attribute pairs.
fn clone_ticket(t: &ApprovalTicket) -> (r: ApprovalTicket)
    ensures
        r.attr_pairs() == t.attr_pairs(),
        r.model() == t.model(),
        r.wf() == t.wf(),
{
    let mut attrs: Vec<(String, String)> = Vec::new();
    let n = t.attrs.len();
    let mut i: usize = 0;
    while i < n
        invariant
            0 <= i <= n,
            n == t.attrs@.len(),
            crate::ticket::pair_views(attrs@) == crate::ticket::pair_views(t.attrs@).take(i as int),
        decreases n - i,
    {
        let ghost before = crate::ticket::pair_views(attrs@);
        attrs.push((t.attrs[i].0.clone(), t.attrs[i].1.clone()));
        proof {
            assert(crate::ticket::pair_views(attrs@) =~= before.push(
                crate::ticket::pair_views(t.attrs@)[i as int],
            ));
            assert(crate::ticket::pair_views(t.attrs@).take(i + 1) =~= crate::ticket::pair_views(
                t.attrs@,
            ).take(i as int).push(crate::ticket::pair_views(t.attrs@)[i as int]));
        }
        i += 1;
    }
    proof {
        assert(crate::ticket::pair_views(t.attrs@).take(n as int) =~= crate::ticket::pair_views(
            t.attrs@,
        ));
    }
    ApprovalTicket {
        giver: crate::ticket::HumanIdentity(t.giver.0.clone()),
        receiver: crate::ticket::HumanIdentity(t.receiver.0.clone()),
        attrs,
    }
}

} // verus!
