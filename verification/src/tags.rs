//! The tag adapter: tickets live in the identity provider's tag storage
//! under one reserved, versioned key, and only tags whose key carries
//! that prefix are read as tickets.

use vstd::prelude::*;

use crate::text::has_prefix;
use crate::text::str_has_prefix;
use crate::ticket::decode_result;
use crate::ticket::ApprovalTicket;
use crate::ticket::ParseError;
use crate::ticket::TicketModel;

verus! {

/// The control-tag namespace reserved for administration.
pub const KEY_ADMIN: &'static str = "tagctl/v1/admin";

/// The reserved key under which approval tickets are stored.
pub const KEY_ADMIN_TICKET: &'static str = "tagctl/v1/admin/mpa/ticket";

/// The provider's ceiling on a tag value's length; a longer encoding is
/// a malformed tag, found before any call leaves the process.
pub const MAX_TAG_VALUE_LEN: usize = 256;

/// One key/value tag on a principal's identity record.
#[derive(Debug, Clone, PartialEq)]
pub struct TagRecord {
    pub key: String,
    pub value: String,
}

impl TagRecord {
    /// The tag's mathematical content.
    pub open spec fn model(&self) -> (Seq<char>, Seq<char>) {
        (self.key@, self.value@)
    }
}

/// Why a tag fails to convert into a ticket.
#[derive(Debug, Clone, PartialEq)]
pub enum TicketBuildError {
    /// The tag's key does not carry the reserved prefix.
    TagKeyInvalid(String),
    /// The tag's value is not a well-formed ticket string.
    TagValueParseError(ParseError),
}

/// The ticket a tag carries: its value's decoding, and only when its
/// key carries the reserved prefix.
pub open spec fn tag_ticket(key: Seq<char>, value: Seq<char>) -> Option<TicketModel> {
    if has_prefix(key, KEY_ADMIN_TICKET@) {
        match decode_result(value) {
            Ok(m) => Some(m),
            Err(_) => None,
        }
    } else {
        None
    }
}

/// Reads a provider tag as a ticket: the key must carry the reserved
/// prefix and the value must decode.
pub fn ticket_from_tag(tag: &TagRecord) -> (r: Result<ApprovalTicket, TicketBuildError>)
    ensures
        match r {
            Ok(t) => t.wf() && tag_ticket(tag.key@, tag.value@) == Some(t.model()),
            Err(TicketBuildError::TagKeyInvalid(k)) => !has_prefix(tag.key@, KEY_ADMIN_TICKET@)
                && k@ == tag.key@,
            Err(TicketBuildError::TagValueParseError(e)) => has_prefix(tag.key@, KEY_ADMIN_TICKET@)
                && decode_result(tag.value@) == Err::<TicketModel, ParseError>(e),
        },
{
    if !str_has_prefix(tag.key.as_str(), KEY_ADMIN_TICKET) {
        return Err(TicketBuildError::TagKeyInvalid(tag.key.clone()));
    }
    match ApprovalTicket::decode(tag.value.as_str()) {
        Ok(t) => Ok(t),
        Err(e) => Err(TicketBuildError::TagValueParseError(e)),
    }
}

/// Builds the provider tag holding a ticket: the reserved key and the
/// encoded value; `None` exactly when the encoding exceeds the
/// provider's value ceiling.
pub fn build_admin_tag(ticket: &ApprovalTicket) -> (r: Option<TagRecord>)
    ensures
        match r {
            Some(tag) => ticket.encoded().len() <= MAX_TAG_VALUE_LEN && tag.key@
                == KEY_ADMIN_TICKET@ && tag.value@ == ticket.encoded(),
            None => ticket.encoded().len() > MAX_TAG_VALUE_LEN,
        },
{
    let value = ticket.encode();
    if value.as_str().unicode_len() > MAX_TAG_VALUE_LEN {
        return None;
    }
    Some(TagRecord { key: KEY_ADMIN_TICKET.to_owned(), value })
}

/// The views of a tag list.
pub open spec fn tag_views(tags: Seq<TagRecord>) -> Seq<(Seq<char>, Seq<char>)> {
    tags.map_values(|t: TagRecord| (t.key@, t.value@))
}

/// The first tag that reads as a ticket, scanning in order.
pub open spec fn first_tag_ticket(tags: Seq<(Seq<char>, Seq<char>)>) -> Option<TicketModel>
    decreases tags.len(),
{
    if tags.len() == 0 {
        None
    } else {
        match tag_ticket(tags[0].0, tags[0].1) {
            Some(m) => Some(m),
            None => first_tag_ticket(tags.skip(1)),
        }
    }
}

/// Finds the first tag that reads as a ticket; tags that do not are
/// passed over, never an error.
pub fn first_ticket_in_tags(tags: &Vec<TagRecord>) -> (r: Option<ApprovalTicket>)
    ensures
        match r {
            Some(t) => t.wf() && first_tag_ticket(tag_views(tags@)) == Some(t.model()),
            None => first_tag_ticket(tag_views(tags@)) is None,
        },
{
    let n = tags.len();
    let mut i: usize = 0;
    proof {
        assert(tag_views(tags@).skip(0) =~= tag_views(tags@));
    }
    while i < n
        invariant
            0 <= i <= n,
            n == tags@.len(),
            first_tag_ticket(tag_views(tags@)) == first_tag_ticket(
                tag_views(tags@).skip(i as int),
            ),
        decreases n - i,
    {
        let ghost rest = tag_views(tags@).skip(i as int);
        proof {
            assert(rest[0] == tag_views(tags@)[i as int]);
            assert(rest.skip(1) =~= tag_views(tags@).skip(i + 1));
        }
        match ticket_from_tag(&tags[i]) {
            Ok(t) => {
                return Some(t);
            },
            Err(_) => {},
        }
        i += 1;
    }
    proof {
        assert(tag_views(tags@).skip(n as int) =~= Seq::<(Seq<char>, Seq<char>)>::empty());
    }
    None
}

} // verus!
