//! The approval ticket: a structured grant from a giver to a receiver
//! with open string attributes, and its `/`-separated text codec
//! `by/<giver>/<key>=<value>/.../for/<receiver>`.

use vstd::prelude::*;

use crate::text::attr_pair;
use crate::text::i64_to_dec;
use crate::text::join_with;
use crate::text::parse_i64;
use crate::text::parse_i64_spec;
use crate::text::split_attr;
use crate::text::split_char;
use crate::text::split_on;
use crate::text::str_eq;

verus! {

/// Why a ticket string fails to decode.
#[derive(Debug, Clone, Copy, PartialEq, Eq, Structural)]
pub enum ParseError {
    /// The string does not open with `by/<giver>`.
    MissingGiver,
    /// The string does not close with `for/<receiver>`.
    MissingReceiver,
}

/// An opaque human-readable label for a person or broker, compared by
/// value.
#[derive(Debug, Clone, PartialEq)]
pub struct HumanIdentity(pub String);

impl HumanIdentity {
    pub fn new(s: String) -> (r: Self)
        ensures
            r.0@ == s@,
    {
        HumanIdentity(s)
    }
}

/// The mathematical content of a ticket: the two identities and the
/// attribute map.
pub ghost struct TicketModel {
    pub giver: Seq<char>,
    pub receiver: Seq<char>,
    pub attrs: Map<Seq<char>, Seq<char>>,
}

/// The views of a list of attribute pairs.
pub open spec fn pair_views(attrs: Seq<(String, String)>) -> Seq<(Seq<char>, Seq<char>)> {
    attrs.map_values(|p: (String, String)| (p.0@, p.1@))
}

/// No key occurs twice.
pub open spec fn keys_distinct(pairs: Seq<(Seq<char>, Seq<char>)>) -> bool {
    forall|i: int, j: int|
        0 <= i < j < pairs.len() ==> (#[trigger] pairs[i]).0 != (#[trigger] pairs[j]).0
}

/// The attribute map of a pair list, later pairs overriding earlier
/// ones.
pub open spec fn map_of_pairs(pairs: Seq<(Seq<char>, Seq<char>)>) -> Map<Seq<char>, Seq<char>>
    decreases pairs.len(),
{
    if pairs.len() == 0 {
        Map::<Seq<char>, Seq<char>>::empty()
    } else {
        map_of_pairs(pairs.drop_last()).insert(pairs.last().0, pairs.last().1)
    }
}

/// A key is in the map of a pair list exactly when some pair carries it.
pub proof fn lemma_map_of_pairs_domain(pairs: Seq<(Seq<char>, Seq<char>)>, k: Seq<char>)
    ensures
        map_of_pairs(pairs).contains_key(k) <==> exists|i: int|
            0 <= i < pairs.len() && (#[trigger] pairs[i]).0 == k,
    decreases pairs.len(),
{
    if pairs.len() > 0 {
        lemma_map_of_pairs_domain(pairs.drop_last(), k);
        if pairs.last().0 == k {
            assert(pairs[pairs.len() - 1].0 == k);
        } else if map_of_pairs(pairs.drop_last()).contains_key(k) {
            let i = choose|i: int|
                0 <= i < pairs.drop_last().len() && (#[trigger] pairs.drop_last()[i]).0 == k;
            assert(pairs[i].0 == k);
        } else if exists|i: int| 0 <= i < pairs.len() && (#[trigger] pairs[i]).0 == k {
            let i = choose|i: int| 0 <= i < pairs.len() && (#[trigger] pairs[i]).0 == k;
            assert(pairs.drop_last()[i].0 == k);
        }
    }
}

/// With distinct keys, any pair carrying a key gives the map's value at
/// that key.
pub proof fn lemma_map_of_pairs_at(pairs: Seq<(Seq<char>, Seq<char>)>, i: int)
    requires
        keys_distinct(pairs),
        0 <= i < pairs.len(),
    ensures
        map_of_pairs(pairs).contains_key(pairs[i].0),
        map_of_pairs(pairs)[pairs[i].0] == pairs[i].1,
    decreases pairs.len(),
{
    if i == pairs.len() - 1 {
        lemma_map_of_pairs_domain(pairs, pairs[i].0);
    } else {
        assert(keys_distinct(pairs.drop_last())) by {
            assert(forall|a: int, b: int|
                0 <= a < b < pairs.drop_last().len() ==> (#[trigger] pairs.drop_last()[a]).0 != (
                #[trigger] pairs.drop_last()[b]).0);
        }
        assert(pairs.drop_last()[i] == pairs[i]);
        lemma_map_of_pairs_at(pairs.drop_last(), i);
        assert(pairs[i].0 != pairs.last().0);
    }
}

/// Replacing the value at one key of a distinct-key pair list updates
/// the map at exactly that key.
pub proof fn lemma_map_of_pairs_update(pairs: Seq<(Seq<char>, Seq<char>)>, i: int, v: Seq<char>)
    requires
        keys_distinct(pairs),
        0 <= i < pairs.len(),
    ensures
        map_of_pairs(pairs.update(i, (pairs[i].0, v))) == map_of_pairs(pairs).insert(
            pairs[i].0,
            v,
        ),
        keys_distinct(pairs.update(i, (pairs[i].0, v))),
    decreases pairs.len(),
{
    let updated = pairs.update(i, (pairs[i].0, v));
    assert(keys_distinct(updated)) by {
        assert(forall|a: int|
            0 <= a < updated.len() ==> (#[trigger] updated[a]).0 == pairs[a].0);
    }
    if i == pairs.len() - 1 {
        assert(updated.drop_last() =~= pairs.drop_last());
        assert(map_of_pairs(updated) =~~= map_of_pairs(pairs).insert(pairs[i].0, v));
    } else {
        assert(keys_distinct(pairs.drop_last())) by {
            assert(forall|a: int, b: int|
                0 <= a < b < pairs.drop_last().len() ==> (#[trigger] pairs.drop_last()[a]).0 != (
                #[trigger] pairs.drop_last()[b]).0);
        }
        assert(pairs.drop_last()[i] == pairs[i]);
        lemma_map_of_pairs_update(pairs.drop_last(), i, v);
        assert(updated.drop_last() =~= pairs.drop_last().update(i, (pairs[i].0, v)));
        assert(updated.last() == pairs.last());
        assert(pairs[i].0 != pairs.last().0);
        assert(map_of_pairs(updated) =~~= map_of_pairs(pairs).insert(pairs[i].0, v));
    }
}

/// The approval ticket: who gave the grant, who receives it, and its
/// open attribute pairs (reserved keys: `chain`, `exp`).
#[derive(Debug, Clone, PartialEq)]
pub struct ApprovalTicket {
    pub giver: HumanIdentity,
    pub receiver: HumanIdentity,
    /// The open attribute pairs; kept distinct-keyed (`wf`) by every
    /// constructor and method.
    pub attrs: Vec<(String, String)>,
}

impl ApprovalTicket {
    /// The attribute pairs, in insertion order.
    pub open spec fn attr_pairs(&self) -> Seq<(Seq<char>, Seq<char>)> {
        pair_views(self.attrs@)
    }

    /// The attribute map.
    pub open spec fn attrs_map(&self) -> Map<Seq<char>, Seq<char>> {
        map_of_pairs(self.attr_pairs())
    }

    /// Each attribute key occurs once.
    pub open spec fn wf(&self) -> bool {
        keys_distinct(self.attr_pairs())
    }

    /// The ticket's mathematical content.
    pub open spec fn model(&self) -> TicketModel {
        TicketModel { giver: self.giver.0@, receiver: self.receiver.0@, attrs: self.attrs_map() }
    }

    pub fn new(giver: HumanIdentity, receiver: HumanIdentity) -> (r: Self)
        ensures
            r.giver == giver,
            r.receiver == receiver,
            r.attrs_map() == Map::<Seq<char>, Seq<char>>::empty(),
            r.wf(),
    {
        ApprovalTicket { giver, receiver, attrs: Vec::new() }
    }

    /// Sets one attribute, replacing any earlier value under the same
    /// key.
    pub fn insert(self, key: String, value: String) -> (r: Self)
        requires
            self.wf(),
        ensures
            r.wf(),
            r.giver == self.giver,
            r.receiver == self.receiver,
            r.attrs_map() == self.attrs_map().insert(key@, value@),
    {
        let mut r = self;
        upsert_attr(&mut r.attrs, key, value);
        r
    }

    /// The value stored under a key, if any.
    pub fn get_attr(&self, key: &str) -> (r: Option<&String>)
        requires
            self.wf(),
        ensures
            match r {
                Some(v) => self.attrs_map().contains_key(key@) && v@ == self.attrs_map()[key@],
                None => !self.attrs_map().contains_key(key@),
            },
    {
        let n = self.attrs.len();
        let mut i: usize = 0;
        while i < n
            invariant
                0 <= i <= n,
                n == self.attrs@.len(),
                self.wf(),
                forall|j: int| 0 <= j < i ==> (#[trigger] self.attr_pairs()[j]).0 != key@,
            decreases n - i,
        {
            let hit = str_eq(self.attrs[i].0.as_str(), key);
            if hit {
                proof {
                    lemma_map_of_pairs_at(self.attr_pairs(), i as int);
                }
                return Some(&self.attrs[i].1);
            }
            i += 1;
        }
        proof {
            lemma_map_of_pairs_domain(self.attr_pairs(), key@);
        }
        None
    }

    /// Marks whether the receiver may delegate further; stored as the
    /// `chain` attribute.
    pub fn set_chainable(self, chainable: bool) -> (r: Self)
        requires
            self.wf(),
        ensures
            r.wf(),
            r.giver == self.giver,
            r.receiver == self.receiver,
            r.attrs_map() == self.attrs_map().insert(
                "chain"@,
                if chainable {
                    "true"@
                } else {
                    "false"@
                },
            ),
    {
        let value: &str = if chainable {
            "true"
        } else {
            "false"
        };
        self.insert("chain".to_owned(), value.to_owned())
    }

    /// Whether the `chain` attribute is present and reads exactly
    /// `true`; anything else fails closed.
    pub fn is_chainable(&self) -> (r: bool)
        requires
            self.wf(),
        ensures
            r == (self.attrs_map().contains_key("chain"@) && self.attrs_map()["chain"@]
                == "true"@),
    {
        match self.get_attr("chain") {
            Some(v) => str_eq(v.as_str(), "true"),
            None => false,
        }
    }

    /// Declares when the grant ends, as Unix seconds in the `exp`
    /// attribute.
    pub fn set_expiry(self, expiry_secs: i64) -> (r: Self)
        requires
            self.wf(),
        ensures
            r.wf(),
            r.giver == self.giver,
            r.receiver == self.receiver,
            r.attrs_map().contains_key("exp"@),
            parse_i64_spec(r.attrs_map()["exp"@]) == Some(expiry_secs as int),
            !r.attrs_map()["exp"@].contains('/'),
            !r.attrs_map()["exp"@].contains('='),
            r.attrs_map() == self.attrs_map().insert("exp"@, r.attrs_map()["exp"@]),
    {
        let value = i64_to_dec(expiry_secs);
        self.insert("exp".to_owned(), value)
    }

    /// The declared end of validity: `Some` exactly when the `exp`
    /// attribute is present, parses as Unix seconds, and lies in the
    /// representable timestamp range; `None` otherwise, absence and
    /// malformedness alike.
    pub fn expires_at(&self) -> (r: Option<i64>)
        requires
            self.wf(),
        ensures
            match r {
                Some(ts) => self.attrs_map().contains_key("exp"@) && parse_i64_spec(
                    self.attrs_map()["exp"@],
                ) == Some(ts as int) && crate::clock::timestamp_in_range(ts as int),
                None => !(self.attrs_map().contains_key("exp"@) && exists|v: int|
                    parse_i64_spec(self.attrs_map()["exp"@]) == Some(v)
                        && crate::clock::timestamp_in_range(v)),
            },
    {
        match self.get_attr("exp") {
            Some(v) => {
                match parse_i64(v.as_str()) {
                    Some(secs) => crate::clock::checked_timestamp(secs),
                    None => None,
                }
            },
            None => None,
        }
    }
}

/// The encoding opens with the literal token `by` and the giver.
pub open spec fn giver_ok(toks: Seq<Seq<char>>) -> bool {
    toks.len() >= 2 && toks[0] == "by"@
}

/// The encoding closes with the literal token `for` and the receiver.
pub open spec fn receiver_ok(toks: Seq<Seq<char>>) -> bool {
    toks.len() >= 4 && toks[toks.len() - 2] == "for"@
}

/// The attribute map read from the middle tokens: tokens without `=`
/// are dropped, later keys override earlier ones.
pub open spec fn attrs_of_tokens(toks: Seq<Seq<char>>) -> Map<Seq<char>, Seq<char>>
    decreases toks.len(),
{
    if toks.len() == 0 {
        Map::<Seq<char>, Seq<char>>::empty()
    } else {
        let m = attrs_of_tokens(toks.drop_last());
        match split_attr(toks.last()) {
            None => m,
            Some(kv) => m.insert(kv.0, kv.1),
        }
    }
}

/// What decoding a ticket string yields: the model on success, and the
/// first missing frame otherwise.
pub open spec fn decode_result(s: Seq<char>) -> Result<TicketModel, ParseError> {
    let toks = split_on(s, '/');
    if !giver_ok(toks) {
        Err(ParseError::MissingGiver)
    } else if !receiver_ok(toks) {
        Err(ParseError::MissingReceiver)
    } else {
        Ok(
            TicketModel {
                giver: toks[1],
                receiver: toks[toks.len() - 1],
                attrs: attrs_of_tokens(toks.subrange(2, toks.len() - 2)),
            },
        )
    }
}

impl ApprovalTicket {
    /// Decodes a ticket string, exactly as `decode_result` describes.
    pub fn decode(s: &str) -> (r: Result<ApprovalTicket, ParseError>)
        ensures
            match r {
                Ok(t) => t.wf() && decode_result(s@) == Ok::<TicketModel, ParseError>(t.model()),
                Err(e) => decode_result(s@) == Err::<TicketModel, ParseError>(e),
            },
    {
        let tokens = split_char(s, '/');
        let ghost toks = split_on(s@, '/');
        let n = tokens.len();
        proof {
            assert(toks.len() == n);
            assert(forall|i: int|
                0 <= i < n ==> toks[i] == (#[trigger] tokens@[i])@);
        }
        if n < 2 || !str_eq(tokens[0].as_str(), "by") {
            return Err(ParseError::MissingGiver);
        }
        if n < 4 || !str_eq(tokens[n - 2].as_str(), "for") {
            return Err(ParseError::MissingReceiver);
        }
        let giver = HumanIdentity(tokens[1].clone());
        let receiver = HumanIdentity(tokens[n - 1].clone());
        let mut attrs: Vec<(String, String)> = Vec::new();
        let mut i: usize = 2;
        proof {
            assert(toks.subrange(2, 2) =~= Seq::<Seq<char>>::empty());
        }
        while i < n - 2
            invariant
                2 <= i <= n - 2,
                4 <= n == toks.len(),
                toks == split_on(s@, '/'),
                n == tokens@.len(),
                forall|j: int| 0 <= j < n ==> toks[j] == (#[trigger] tokens@[j])@,
                keys_distinct(pair_views(attrs@)),
                map_of_pairs(pair_views(attrs@)) == attrs_of_tokens(toks.subrange(2, i as int)),
            decreases n - i,
        {
            let ghost before = toks.subrange(2, i as int);
            let ghost after = toks.subrange(2, i + 1);
            proof {
                assert(after.drop_last() =~= before);
                assert(after.last() == toks[i as int]);
            }
            match attr_pair(tokens[i].as_str()) {
                Some(kv) => {
                    upsert_attr(&mut attrs, kv.0, kv.1);
                },
                None => {},
            }
            i += 1;
        }
        let t = ApprovalTicket { giver, receiver, attrs };
        proof {
            assert(toks.subrange(2, toks.len() - 2) == toks.subrange(2, i as int));
        }
        Ok(t)
    }

    /// The middle tokens of the encoding: one `key=value` token per
    /// attribute, or one empty token when there are none.
    pub open spec fn mid_token_views(&self) -> Seq<Seq<char>> {
        if self.attr_pairs().len() == 0 {
            seq![Seq::<char>::empty()]
        } else {
            self.attr_pairs().map_values(|kv: (Seq<char>, Seq<char>)| kv.0 + seq!['='] + kv.1)
        }
    }

    /// Every token of the encoding, in order.
    pub open spec fn token_views(&self) -> Seq<Seq<char>> {
        seq!["by"@, self.giver.0@] + self.mid_token_views() + seq![
            "for"@,
            self.receiver.0@,
        ]
    }

    /// The encoded ticket string.
    pub open spec fn encoded(&self) -> Seq<char> {
        join_with(self.token_views(), '/')
    }

    /// Encodes the ticket, exactly as `encoded` describes.
    pub fn encode(&self) -> (r: String)
        ensures
            r@ == self.encoded(),
    {
        proof {
            reveal_strlit("/");
            reveal_strlit("=");
            assert("/"@ =~= seq!['/']);
            assert("="@ =~= seq!['=']);
        }
        let mut out = "by".to_owned();
        out.append("/");
        out.append(self.giver.0.as_str());
        let ghost head = seq!["by"@, self.giver.0@];
        proof {
            assert(head.skip(1) =~= seq![self.giver.0@]);
            assert(join_with(seq![self.giver.0@], '/') == self.giver.0@);
            assert(join_with(head, '/') == "by"@ + seq!['/'] + self.giver.0@);
            assert(out@ == join_with(head, '/'));
        }
        let n = self.attrs.len();
        let mut i: usize = 0;
        proof {
            assert(self.attr_pairs().take(0) =~= Seq::<(Seq<char>, Seq<char>)>::empty());
            assert(attr_tokens_of(self.attr_pairs().take(0)) =~=
                Seq::<Seq<char>>::empty());
            assert(head + attr_tokens_of(self.attr_pairs().take(0)) =~= head);
        }
        while i < n
            invariant
                0 <= i <= n,
                n == self.attrs@.len(),
                out@ == join_with(head + attr_tokens_of(self.attr_pairs().take(i as int)), '/'),
                head == seq!["by"@, self.giver.0@],
            decreases n - i,
        {
            let ghost done = head + attr_tokens_of(self.attr_pairs().take(i as int));
            out.append("/");
            out.append(self.attrs[i].0.as_str());
            out.append("=");
            out.append(self.attrs[i].1.as_str());
            proof {
                reveal_strlit("/");
                reveal_strlit("=");
                assert("/"@ =~= seq!['/']);
                assert("="@ =~= seq!['=']);
                let kv = self.attr_pairs()[i as int];
                let token = kv.0 + seq!['='] + kv.1;
                assert(done.len() >= 1);
                lemma_join_push(done, token, '/');
                assert(out@ == join_with(done, '/') + seq!['/'] + token);
                assert(attr_tokens_of(self.attr_pairs().take(i + 1)) =~= attr_tokens_of(
                    self.attr_pairs().take(i as int),
                ).push(token));
                assert(head + attr_tokens_of(self.attr_pairs().take(i + 1)) =~= done.push(
                    token,
                ));
            }
            i += 1;
        }
        proof {
            assert(self.attr_pairs().take(n as int) =~= self.attr_pairs());
        }
        if n == 0 {
            let ghost done = head + attr_tokens_of(self.attr_pairs());
            out.append("/");
            proof {
                lemma_join_push(done, Seq::<char>::empty(), '/');
                assert(out@ == join_with(done, '/') + seq!['/'] + Seq::<char>::empty());
                assert(out@ == join_with(done.push(Seq::<char>::empty()), '/'));
                assert(done.push(Seq::<char>::empty()) =~= head + self.mid_token_views());
            }
        } else {
            proof {
                assert(head + attr_tokens_of(self.attr_pairs()) =~= head
                    + self.mid_token_views());
            }
        }
        let ghost done = head + self.mid_token_views();
        out.append("/");
        out.append("for");
        out.append("/");
        out.append(self.receiver.0.as_str());
        proof {
            reveal_strlit("/");
            assert("/"@ =~= seq!['/']);
            assert(done.len() >= 1);
            lemma_join_push(done, "for"@, '/');
            lemma_join_push(done.push("for"@), self.receiver.0@, '/');
            assert(out@ == join_with(done.push("for"@).push(self.receiver.0@), '/'));
            assert(done.push("for"@).push(self.receiver.0@) =~= self.token_views());
        }
        out
    }

    /// No separator or key/value ambiguity: the round trip is exact for
    /// such tickets.
    pub open spec fn encodable(&self) -> bool {
        &&& !self.giver.0@.contains('/')
        &&& !self.receiver.0@.contains('/')
        &&& forall|i: int|
            0 <= i < self.attr_pairs().len() ==> {
                &&& !(#[trigger] self.attr_pairs()[i]).0.contains('/')
                &&& !self.attr_pairs()[i].0.contains('=')
                &&& !self.attr_pairs()[i].1.contains('/')
            }
    }
}

/// One `key=value` token per attribute pair.
pub open spec fn attr_tokens_of(pairs: Seq<(Seq<char>, Seq<char>)>) -> Seq<Seq<char>> {
    pairs.map_values(|kv: (Seq<char>, Seq<char>)| kv.0 + seq!['='] + kv.1)
}

/// Joining one more part appends one separator and the part.
proof fn lemma_join_push(ts: Seq<Seq<char>>, t: Seq<char>, sep: char)
    requires
        ts.len() >= 1,
    ensures
        join_with(ts.push(t), sep) == join_with(ts, sep) + seq![sep] + t,
{
    crate::text::lemma_join_concat(ts, seq![t], sep);
    assert(ts + seq![t] =~= ts.push(t));
    assert(join_with(seq![t], sep) == t);
}

/// Reading the attribute tokens of a distinct-key pair list recovers
/// exactly its map.
proof fn lemma_attrs_of_attr_tokens(pairs: Seq<(Seq<char>, Seq<char>)>)
    requires
        forall|i: int|
            0 <= i < pairs.len() ==> !(#[trigger] pairs[i]).0.contains('='),
    ensures
        attrs_of_tokens(attr_tokens_of(pairs)) == map_of_pairs(pairs),
    decreases pairs.len(),
{
    if pairs.len() == 0 {
        assert(attr_tokens_of(pairs) =~= Seq::<Seq<char>>::empty());
        assert(attrs_of_tokens(attr_tokens_of(pairs)) =~~= map_of_pairs(pairs));
    } else {
        assert(forall|i: int|
            0 <= i < pairs.drop_last().len() ==> (#[trigger] pairs.drop_last()[i])
                == pairs[i]);
        lemma_attrs_of_attr_tokens(pairs.drop_last());
        let toks = attr_tokens_of(pairs);
        assert(toks.drop_last() =~= attr_tokens_of(pairs.drop_last()));
        assert(toks.last() == pairs.last().0 + seq!['='] + pairs.last().1);
        crate::text::lemma_split_attr_of_pair(pairs.last().0, pairs.last().1);
        assert(attrs_of_tokens(toks) == map_of_pairs(pairs));
    }
}

/// Round trip: decoding an encoded well-formed, encodable ticket yields
/// exactly its model — same giver, same receiver, same attribute map.
pub proof fn lemma_round_trip(t: &ApprovalTicket)
    requires
        t.wf(),
        t.encodable(),
    ensures
        decode_result(t.encoded()) == Ok::<TicketModel, ParseError>(t.model()),
{
    reveal_strlit("by");
    reveal_strlit("for");
    let toks = t.token_views();
    let mid = t.mid_token_views();
    assert(toks.len() == mid.len() + 4);
    assert(mid.len() >= 1);
    assert forall|i: int| 0 <= i < toks.len() implies !(#[trigger] toks[i]).contains('/') by {
        assert('b' != '/' && 'y' != '/' && 'f' != '/' && 'o' != '/' && 'r' != '/' && '='
            != '/');
        if i == 0 {
            assert(toks[i] == "by"@);
            assert(forall|j: int| 0 <= j < "by"@.len() ==> "by"@[j] != '/');
        } else if i == 1 {
            assert(toks[i] == t.giver.0@);
        } else if i == toks.len() - 2 {
            assert(toks[i] == "for"@);
            assert(forall|j: int| 0 <= j < "for"@.len() ==> "for"@[j] != '/');
        } else if i == toks.len() - 1 {
            assert(toks[i] == t.receiver.0@);
        } else {
            assert(toks[i] == mid[i - 2]);
            if t.attr_pairs().len() == 0 {
                assert(mid[i - 2] == Seq::<char>::empty());
            } else {
                let kv = t.attr_pairs()[i - 2];
                let token = kv.0 + seq!['='] + kv.1;
                assert(mid[i - 2] == token);
                if token.contains('/') {
                    let j = choose|j: int| 0 <= j < token.len() && token[j] == '/';
                    if j < kv.0.len() {
                        assert(kv.0[j] == '/');
                        assert(kv.0.contains('/'));
                    } else if j == kv.0.len() {
                        assert(token[j] == '=');
                    } else {
                        assert(kv.1[j - kv.0.len() - 1] == '/');
                        assert(kv.1.contains('/'));
                    }
                }
            }
        }
    }
    crate::text::lemma_split_join(toks, '/');
    assert(giver_ok(toks));
    assert(toks[toks.len() - 2] == "for"@);
    assert(receiver_ok(toks));
    assert(toks[1] == t.giver.0@);
    assert(toks[toks.len() - 1] == t.receiver.0@);
    assert(toks.subrange(2, toks.len() - 2) =~= mid);
    if t.attr_pairs().len() == 0 {
        assert(mid == seq![Seq::<char>::empty()]);
        assert(mid.drop_last() =~= Seq::<Seq<char>>::empty());
        assert(split_attr(Seq::<char>::empty()) is None);
        assert(attrs_of_tokens(Seq::<Seq<char>>::empty()) == Map::<Seq<char>, Seq<char>>::empty());
        assert(map_of_pairs(t.attr_pairs()) == Map::<Seq<char>, Seq<char>>::empty());
        assert(attrs_of_tokens(mid) =~~= t.attrs_map());
    } else {
        assert(forall|i: int|
            0 <= i < t.attr_pairs().len() ==> !(#[trigger] t.attr_pairs()[i]).0.contains(
                '=',
            ));
        lemma_attrs_of_attr_tokens(t.attr_pairs());
        assert(mid =~= attr_tokens_of(t.attr_pairs()));
    }
}

/// Sets one attribute pair in a distinct-key pair list, replacing the
/// value if the key is already present.
fn upsert_attr(attrs: &mut Vec<(String, String)>, key: String, value: String)
    requires
        keys_distinct(pair_views(old(attrs)@)),
    ensures
        keys_distinct(pair_views(final(attrs)@)),
        map_of_pairs(pair_views(final(attrs)@)) == map_of_pairs(pair_views(old(attrs)@)).insert(
            key@,
            value@,
        ),
{
    let n = attrs.len();
    let mut i: usize = 0;
    while i < n
        invariant
            0 <= i <= n,
            n == attrs@.len(),
            keys_distinct(pair_views(attrs@)),
            attrs@ == old(attrs)@,
            forall|j: int| 0 <= j < i ==> (#[trigger] pair_views(attrs@)[j]).0 != key@,
        decreases n - i,
    {
        let hit = str_eq(attrs[i].0.as_str(), key.as_str());
        if hit {
            let ghost pairs = pair_views(attrs@);
            proof {
                lemma_map_of_pairs_update(pairs, i as int, value@);
            }
            attrs[i].1 = value;
            proof {
                assert(pair_views(attrs@) =~= pairs.update(i as int, (pairs[i as int].0, value@)));
            }
            return ;
        }
        i += 1;
    }
    let ghost pairs = pair_views(attrs@);
    attrs.push((key, value));
    proof {
        assert(pair_views(attrs@) =~= pairs.push((key@, value@)));
        assert(pair_views(attrs@).drop_last() =~= pairs);
        assert(keys_distinct(pair_views(attrs@))) by {
            assert(forall|j: int|
                0 <= j < pairs.len() ==> (#[trigger] pair_views(attrs@)[j]) == pairs[j]);
        }
    }
}

} // verus!
