//! The approval manager: the ticket lifecycle over one kind of
//! principal.  It reads and writes only the reserved tag, treats
//! undecodable tags as "no ticket" when enumerating, and isolates each
//! principal's failure from every other's.

use vstd::prelude::*;

use crate::directory::remove_key_pairs;
use crate::directory::upsert_pairs;
use crate::directory::DirectoryError;
use crate::directory::PrincipalDirectory;
use crate::tags::build_admin_tag;
use crate::tags::first_tag_ticket;
use crate::tags::first_ticket_in_tags;
use crate::tags::KEY_ADMIN_TICKET;
use crate::tags::MAX_TAG_VALUE_LEN;
use crate::ticket::ApprovalTicket;
use crate::ticket::TicketModel;

verus! {

/// Listing the principals failed.
#[derive(Debug, Clone, Copy, PartialEq, Eq, Structural)]
pub enum ListPrincipalsError {
    InternalError(DirectoryError),
}

/// Enumerating all tickets failed outright (single fetches fail
/// silently instead).
#[derive(Debug, Clone, Copy, PartialEq, Eq, Structural)]
pub enum ListAllTicketsError {
    InternalError(DirectoryError),
}

/// Reading one principal's ticket failed.
#[derive(Debug, Clone, Copy, PartialEq, Eq, Structural)]
pub enum ListTicketsError {
    InternalError(DirectoryError),
    /// The principal itself does not exist — distinct from "the
    /// principal exists and has no ticket", which is `Ok(None)`.
    MissingPrincipal,
}

/// Writing a ticket failed.
#[derive(Debug, Clone, Copy, PartialEq, Eq, Structural)]
pub enum SetTicketError {
    InternalError(DirectoryError),
    /// The ticket does not fit the provider's tag constraints; found
    /// before anything is sent.
    MalformedTag,
}

/// Removing a ticket failed.
#[derive(Debug, Clone, Copy, PartialEq, Eq, Structural)]
pub enum UnsetTicketError {
    InternalError(DirectoryError),
}

/// The names and ticket models of a yielded pair list.
pub open spec fn pair_models(v: Seq<(String, ApprovalTicket)>) -> Seq<(Seq<char>, TicketModel)> {
    v.map_values(|pr: (String, ApprovalTicket)| (pr.0@, pr.1.model()))
}

/// The ticket lifecycle over a directory of principals of one kind.
pub struct ApprovalManager<D: PrincipalDirectory> {
    pub directory: D,
}

impl<D: PrincipalDirectory> ApprovalManager<D> {
    /// The ticket a principal currently carries: the first of its tags
    /// that reads as one.
    pub open spec fn principal_ticket(&self, p: Seq<char>) -> Option<TicketModel> {
        first_tag_ticket(self.directory.tags_of(p))
    }

    /// The enumeration the directory's state determines: one pair for
    /// each listed principal that is not refused and carries a readable
    /// ticket, in listing order — a name listed twice is enumerated
    /// twice.
    pub open spec fn ticket_listing(&self, names: Seq<Seq<char>>) -> Seq<(Seq<char>, TicketModel)>
        decreases names.len(),
    {
        if names.len() == 0 {
            Seq::<(Seq<char>, TicketModel)>::empty()
        } else {
            let rest = self.ticket_listing(names.drop_last());
            let p = names.last();
            if !self.directory.failing(p) {
                match self.principal_ticket(p) {
                    Some(t) => rest.push((p, t)),
                    None => rest,
                }
            } else {
                rest
            }
        }
    }

    pub fn new(directory: D) -> (r: Self)
        ensures
            r.directory == directory,
    {
        ApprovalManager { directory }
    }

    /// Fetches the principal's ticket: the first tag that decodes, or
    /// `None` when the principal exists but carries no readable ticket.
    pub fn get_ticket(&self, principal: &str) -> (r: Result<
        Option<ApprovalTicket>,
        ListTicketsError,
    >)
        ensures
            match r {
                Ok(Some(t)) => !self.directory.failing(principal@) && self.directory.has_principal(
                    principal@,
                ) && t.wf() && self.principal_ticket(principal@) == Some(t.model()),
                Ok(None) => !self.directory.failing(principal@) && self.directory.has_principal(
                    principal@,
                ) && self.principal_ticket(principal@) is None,
                Err(ListTicketsError::MissingPrincipal) => !self.directory.failing(principal@)
                    && !self.directory.has_principal(principal@),
                Err(ListTicketsError::InternalError(e)) => self.directory.failing(principal@) && e
                    == DirectoryError::Transport,
            },
    {
        match self.directory.list_tags(principal) {
            Ok(tags) => Ok(first_ticket_in_tags(&tags)),
            Err(DirectoryError::MissingPrincipal) => Err(ListTicketsError::MissingPrincipal),
            Err(DirectoryError::Transport) => Err(
                ListTicketsError::InternalError(DirectoryError::Transport),
            ),
        }
    }

    /// Writes the ticket as the reserved tag on the principal.  An
    /// encoding beyond the provider's limits is refused as
    /// `MalformedTag` before any call leaves the process; no other
    /// principal's tags move.
    pub fn set_ticket(&mut self, principal: &str, ticket: ApprovalTicket) -> (r: Result<
        (),
        SetTicketError,
    >)
        ensures
            match r {
                Ok(()) => {
                    &&& ticket.encoded().len() <= MAX_TAG_VALUE_LEN
                    &&& !old(self).directory.failing(principal@)
                    &&& old(self).directory.has_principal(principal@)
                    &&& final(self).directory.tags_of(principal@) == upsert_pairs(
                        old(self).directory.tags_of(principal@),
                        KEY_ADMIN_TICKET@,
                        ticket.encoded(),
                    )
                    &&& final(self).directory.names() == old(self).directory.names()
                    &&& final(self).directory.listing_fails() == old(
                        self,
                    ).directory.listing_fails()
                    &&& forall|q: Seq<char>|
                        final(self).directory.failing(q) == old(self).directory.failing(q)
                            && final(self).directory.has_principal(q) == old(
                            self,
                        ).directory.has_principal(q)
                    &&& forall|q: Seq<char>|
                        q != principal@ ==> final(self).directory.tags_of(q) == old(
                            self,
                        ).directory.tags_of(q)
                    &&& forall|q: Seq<char>|
                        q != principal@ ==> #[trigger] final(self).principal_ticket(q) == old(
                            self,
                        ).principal_ticket(q)
                },
                Err(SetTicketError::MalformedTag) => ticket.encoded().len() > MAX_TAG_VALUE_LEN
                    && *final(self) == *old(self),
                Err(SetTicketError::InternalError(DirectoryError::Transport)) => ticket.encoded().len()
                    <= MAX_TAG_VALUE_LEN && old(self).directory.failing(principal@) && *final(self)
                    == *old(self),
                Err(SetTicketError::InternalError(DirectoryError::MissingPrincipal)) => ticket.encoded().len()
                    <= MAX_TAG_VALUE_LEN && !old(self).directory.failing(principal@) && !old(
                    self,
                ).directory.has_principal(principal@) && *final(self) == *old(self),
            },
    {
        let tag = match build_admin_tag(&ticket) {
            None => {
                return Err(SetTicketError::MalformedTag);
            },
            Some(tag) => tag,
        };
        match self.directory.put_tag(principal, tag) {
            Ok(()) => Ok(()),
            Err(e) => Err(SetTicketError::InternalError(e)),
        }
    }

    /// Removes exactly the reserved tag from the principal; removing an
    /// absent tag succeeds and changes nothing.  No other principal's
    /// tags move.
    pub fn unset_ticket(&mut self, principal: &str) -> (r: Result<(), UnsetTicketError>)
        ensures
            match r {
                Ok(()) => {
                    &&& !old(self).directory.failing(principal@)
                    &&& old(self).directory.has_principal(principal@)
                    &&& final(self).directory.tags_of(principal@) == remove_key_pairs(
                        old(self).directory.tags_of(principal@),
                        KEY_ADMIN_TICKET@,
                    )
                    &&& final(self).directory.names() == old(self).directory.names()
                    &&& final(self).directory.listing_fails() == old(
                        self,
                    ).directory.listing_fails()
                    &&& forall|q: Seq<char>|
                        final(self).directory.failing(q) == old(self).directory.failing(q)
                            && final(self).directory.has_principal(q) == old(
                            self,
                        ).directory.has_principal(q)
                    &&& forall|q: Seq<char>|
                        q != principal@ ==> final(self).directory.tags_of(q) == old(
                            self,
                        ).directory.tags_of(q)
                },
                Err(UnsetTicketError::InternalError(DirectoryError::Transport)) => old(
                    self,
                ).directory.failing(principal@) && *final(self) == *old(self),
                Err(UnsetTicketError::InternalError(DirectoryError::MissingPrincipal)) => !old(
                    self,
                ).directory.failing(principal@) && !old(self).directory.has_principal(principal@)
                    && *final(self) == *old(self),
            },
    {
        match self.directory.remove_tag(principal, KEY_ADMIN_TICKET) {
            Ok(()) => Ok(()),
            Err(e) => Err(UnsetTicketError::InternalError(e)),
        }
    }

    /// Enumerates every principal and yields each one's ticket.  A
    /// principal with no readable ticket is passed over; a principal
    /// whose fetch fails is passed over too, and every other
    /// principal's ticket is still yielded — only a failure of the
    /// listing itself fails the call.
    pub fn list_all_tickets(&self) -> (r: Result<
        Vec<(String, ApprovalTicket)>,
        ListAllTicketsError,
    >)
        ensures
            match r {
                Ok(v) => {
                    &&& !self.directory.listing_fails()
                    &&& pair_models(v@) == self.ticket_listing(self.directory.names())
                    &&& forall|i: int|
                        0 <= i < v@.len() ==> {
                            &&& self.directory.names().contains((#[trigger] v@[i]).0@)
                            &&& !self.directory.failing(v@[i].0@)
                            &&& v@[i].1.wf()
                            &&& self.principal_ticket(v@[i].0@) == Some(v@[i].1.model())
                        }
                    &&& forall|j: int|
                        0 <= j < self.directory.names().len() && !self.directory.failing(
                            #[trigger] self.directory.names()[j],
                        ) && self.principal_ticket(self.directory.names()[j]) is Some
                            ==> exists|i: int|
                            0 <= i < v@.len() && (#[trigger] v@[i]).0@
                                == self.directory.names()[j] && Some(v@[i].1.model())
                                == self.principal_ticket(self.directory.names()[j])
                },
                Err(e) => self.directory.listing_fails() && e
                    == ListAllTicketsError::InternalError(DirectoryError::Transport),
            },
    {
        let names = match self.directory.list_principals() {
            Ok(names) => names,
            Err(_) => {
                return Err(ListAllTicketsError::InternalError(DirectoryError::Transport));
            },
        };
        let n = names.len();
        let mut out: Vec<(String, ApprovalTicket)> = Vec::new();
        let mut i: usize = 0;
        proof {
            assert(self.directory.names().take(0) =~= Seq::<Seq<char>>::empty());
            assert(pair_models(out@) =~= self.ticket_listing(self.directory.names().take(0)));
        }
        while i < n
            invariant
                0 <= i <= n,
                n == names@.len(),
                crate::text::views_of(names@) == self.directory.names(),
                pair_models(out@) == self.ticket_listing(self.directory.names().take(i as int)),
                forall|k: int|
                    0 <= k < out@.len() ==> {
                        &&& self.directory.names().contains((#[trigger] out@[k]).0@)
                        &&& !self.directory.failing(out@[k].0@)
                        &&& out@[k].1.wf()
                        &&& self.principal_ticket(out@[k].0@) == Some(out@[k].1.model())
                    },
                forall|j: int|
                    0 <= j < i && !self.directory.failing(
                        #[trigger] self.directory.names()[j],
                    ) && self.principal_ticket(self.directory.names()[j]) is Some
                        ==> exists|k: int|
                        0 <= k < out@.len() && (#[trigger] out@[k]).0@
                            == self.directory.names()[j] && Some(out@[k].1.model())
                            == self.principal_ticket(self.directory.names()[j]),
            decreases n - i,
        {
            let ghost prior = out@;
            let ghost p = self.directory.names()[i as int];
            proof {
                assert(names@[i as int]@ == p);
                assert(self.directory.names().take(i + 1).drop_last() =~= self.directory.names().take(
                    i as int,
                ));
                assert(self.directory.names().take(i + 1).last() == p);
            }
            match self.get_ticket(names[i].as_str()) {
                Ok(Some(t)) => {
                    let name = names[i].clone();
                    out.push((name, t));
                    proof {
                        assert(self.directory.names().contains(p));
                        assert(forall|k: int|
                            0 <= k < prior.len() ==> (#[trigger] out@[k]) == prior[k]);
                        assert(out@[prior.len() as int].0@ == p);
                        assert(Some(out@[prior.len() as int].1.model()) == self.principal_ticket(
                            p,
                        ));
                        assert(pair_models(out@) =~= pair_models(prior).push(
                            (p, out@[prior.len() as int].1.model()),
                        ));
                    }
                },
                Ok(None) => {},
                Err(ListTicketsError::MissingPrincipal) => {
                    proof {
                        self.directory.principals_are_named(p);
                        assert(self.directory.names().contains(p));
                        assert(false);
                    }
                },
                Err(ListTicketsError::InternalError(_)) => {},
            }
            proof {
                assert(forall|k: int|
                    0 <= k < prior.len() ==> (#[trigger] out@[k]) == prior[k]);
                assert forall|j: int|
                    0 <= j < i + 1 && !self.directory.failing(
                        #[trigger] self.directory.names()[j],
                    ) && self.principal_ticket(self.directory.names()[j]) is Some implies exists|
                    k: int,
                |
                    0 <= k < out@.len() && (#[trigger] out@[k]).0@ == self.directory.names()[j]
                        && Some(out@[k].1.model()) == self.principal_ticket(
                        self.directory.names()[j],
                    ) by {
                    if j < i {
                        let k = choose|k: int|
                            0 <= k < prior.len() && (#[trigger] prior[k]).0@
                                == self.directory.names()[j] && Some(prior[k].1.model())
                                == self.principal_ticket(self.directory.names()[j]);
                        assert(out@[k] == prior[k]);
                    } else if out@.len() > prior.len() {
                        assert(out@[prior.len() as int].0@ == p);
                    }
                }
            }
            i += 1;
        }
        proof {
            assert(self.directory.names().take(n as int) =~= self.directory.names());
        }
        Ok(out)
    }
}

} // verus!
