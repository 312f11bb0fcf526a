//! The narrow capability the ticket lifecycle needs from the identity
//! provider: list the principals of one kind, read one principal's
//! tags, and write or remove a single tag.  Failure is part of the
//! interface: any principal's calls may be refused, and one principal's
//! refusal says nothing about another's.  `MemoryDirectory` implements
//! the capability over plain data, for proofs and tests.

use vstd::prelude::*;

use crate::tags::tag_views;
use crate::tags::TagRecord;
use crate::text::str_eq;
use crate::text::views_of;

verus! {

/// How a directory call fails.
#[derive(Debug, Clone, Copy, PartialEq, Eq, Structural)]
pub enum DirectoryError {
    /// The provider could not serve the call.
    Transport,
    /// The named principal does not exist.
    MissingPrincipal,
}

/// Replaces the value under the first occurrence of a key, or appends
/// the pair when the key is absent.
pub open spec fn upsert_pairs(
    pairs: Seq<(Seq<char>, Seq<char>)>,
    k: Seq<char>,
    v: Seq<char>,
) -> Seq<(Seq<char>, Seq<char>)>
    decreases pairs.len(),
{
    if pairs.len() == 0 {
        seq![(k, v)]
    } else if pairs[0].0 == k {
        seq![(k, v)] + pairs.skip(1)
    } else {
        seq![pairs[0]] + upsert_pairs(pairs.skip(1), k, v)
    }
}

/// Drops every pair whose key is exactly `k`.
pub open spec fn remove_key_pairs(pairs: Seq<(Seq<char>, Seq<char>)>, k: Seq<char>) -> Seq<
    (Seq<char>, Seq<char>),
>
    decreases pairs.len(),
{
    if pairs.len() == 0 {
        pairs
    } else if pairs[0].0 == k {
        remove_key_pairs(pairs.skip(1), k)
    } else {
        seq![pairs[0]] + remove_key_pairs(pairs.skip(1), k)
    }
}

/// Removing a key that no pair carries changes nothing.
pub proof fn lemma_remove_absent_key(pairs: Seq<(Seq<char>, Seq<char>)>, k: Seq<char>)
    requires
        forall|i: int| 0 <= i < pairs.len() ==> (#[trigger] pairs[i]).0 != k,
    ensures
        remove_key_pairs(pairs, k) == pairs,
    decreases pairs.len(),
{
    if pairs.len() > 0 {
        assert(forall|i: int|
            0 <= i < pairs.skip(1).len() ==> (#[trigger] pairs.skip(1)[i]) == pairs[i + 1]);
        lemma_remove_absent_key(pairs.skip(1), k);
        assert(seq![pairs[0]] + pairs.skip(1) =~= pairs);
    }
}

/// No pair survives a removal under its own key.
pub proof fn lemma_remove_key_gone(pairs: Seq<(Seq<char>, Seq<char>)>, k: Seq<char>)
    ensures
        forall|i: int|
            0 <= i < remove_key_pairs(pairs, k).len() ==> (#[trigger] remove_key_pairs(
                pairs,
                k,
            )[i]).0 != k,
    decreases pairs.len(),
{
    if pairs.len() > 0 {
        lemma_remove_key_gone(pairs.skip(1), k);
        let rest = remove_key_pairs(pairs.skip(1), k);
        if pairs[0].0 == k {
            assert(remove_key_pairs(pairs, k) == rest);
        } else {
            assert(remove_key_pairs(pairs, k) == seq![pairs[0]] + rest);
            assert forall|i: int| 0 <= i < remove_key_pairs(pairs, k).len() implies (
            #[trigger] remove_key_pairs(pairs, k)[i]).0 != k by {
                if i == 0 {
                    assert(remove_key_pairs(pairs, k)[0] == pairs[0]);
                } else {
                    assert(remove_key_pairs(pairs, k)[i] == rest[i - 1]);
                }
            }
        }
    }
}

/// Removing a key twice is removing it once.
pub proof fn lemma_remove_key_idempotent(pairs: Seq<(Seq<char>, Seq<char>)>, k: Seq<char>)
    ensures
        remove_key_pairs(remove_key_pairs(pairs, k), k) == remove_key_pairs(pairs, k),
{
    lemma_remove_key_gone(pairs, k);
    lemma_remove_absent_key(remove_key_pairs(pairs, k), k);
}

/// The identity provider, seen as a directory of tagged principals of
/// one kind.  The spec functions describe its current state and which
/// calls it would refuse; the methods promise exactly how each call
/// reads or rewrites that state.
pub trait PrincipalDirectory: Sized {
    /// The principal names, in listing order.
    spec fn names(&self) -> Seq<Seq<char>>;

    /// The tags on a principal, in listing order.
    spec fn tags_of(&self, p: Seq<char>) -> Seq<(Seq<char>, Seq<char>)>;

    /// Whether the principal exists.
    spec fn has_principal(&self, p: Seq<char>) -> bool;

    /// Whether the provider refuses calls about this principal.
    spec fn failing(&self, p: Seq<char>) -> bool;

    /// Whether the provider refuses to list principals.
    spec fn listing_fails(&self) -> bool;

    proof fn principals_are_named(&self, p: Seq<char>)
        ensures
            self.has_principal(p) <==> self.names().contains(p),
    ;

    fn list_principals(&self) -> (r: Result<Vec<String>, DirectoryError>)
        ensures
            match r {
                Ok(names) => !self.listing_fails() && views_of(names@) == self.names(),
                Err(e) => self.listing_fails() && e == DirectoryError::Transport,
            },
    ;

    fn list_tags(&self, p: &str) -> (r: Result<Vec<TagRecord>, DirectoryError>)
        ensures
            match r {
                Ok(tags) => !self.failing(p@) && self.has_principal(p@) && tag_views(tags@)
                    == self.tags_of(p@),
                Err(DirectoryError::Transport) => self.failing(p@),
                Err(DirectoryError::MissingPrincipal) => !self.failing(p@)
                    && !self.has_principal(p@),
            },
    ;

    fn put_tag(&mut self, p: &str, tag: TagRecord) -> (r: Result<(), DirectoryError>)
        ensures
            match r {
                Ok(()) => {
                    &&& !old(self).failing(p@)
                    &&& old(self).has_principal(p@)
                    &&& final(self).tags_of(p@) == upsert_pairs(
                        old(self).tags_of(p@),
                        tag.key@,
                        tag.value@,
                    )
                    &&& final(self).names() == old(self).names()
                    &&& final(self).listing_fails() == old(self).listing_fails()
                    &&& forall|q: Seq<char>|
                        final(self).failing(q) == old(self).failing(q)
                            && final(self).has_principal(q) == old(self).has_principal(q)
                    &&& forall|q: Seq<char>|
                        q != p@ ==> final(self).tags_of(q) == old(self).tags_of(q)
                },
                Err(DirectoryError::Transport) => {
                    &&& old(self).failing(p@)
                    &&& *final(self) == *old(self)
                },
                Err(DirectoryError::MissingPrincipal) => {
                    &&& !old(self).failing(p@)
                    &&& !old(self).has_principal(p@)
                    &&& *final(self) == *old(self)
                },
            },
    ;

    fn remove_tag(&mut self, p: &str, key: &str) -> (r: Result<(), DirectoryError>)
        ensures
            match r {
                Ok(()) => {
                    &&& !old(self).failing(p@)
                    &&& old(self).has_principal(p@)
                    &&& final(self).tags_of(p@) == remove_key_pairs(old(self).tags_of(p@), key@)
                    &&& final(self).names() == old(self).names()
                    &&& final(self).listing_fails() == old(self).listing_fails()
                    &&& forall|q: Seq<char>|
                        final(self).failing(q) == old(self).failing(q)
                            && final(self).has_principal(q) == old(self).has_principal(q)
                    &&& forall|q: Seq<char>|
                        q != p@ ==> final(self).tags_of(q) == old(self).tags_of(q)
                },
                Err(DirectoryError::Transport) => {
                    &&& old(self).failing(p@)
                    &&& *final(self) == *old(self)
                },
                Err(DirectoryError::MissingPrincipal) => {
                    &&& !old(self).failing(p@)
                    &&& !old(self).has_principal(p@)
                    &&& *final(self) == *old(self)
                },
            },
    ;
}

/// A principal as the provider stores it: a name and its tags.
#[derive(Debug, Clone, PartialEq)]
pub struct PrincipalRecord {
    pub name: String,
    pub tags: Vec<TagRecord>,
}

/// An in-memory directory: the provider's tag storage as plain data,
/// with injectable refusals so that partial failure can be exercised
/// and reasoned about.
#[derive(Debug)]
pub struct MemoryDirectory {
    pub records: Vec<PrincipalRecord>,
    /// Principals whose calls the provider refuses.
    pub denied: Vec<String>,
    /// Whether listing principals is refused.
    pub deny_listing: bool,
}

/// The names of a record list, in order.
pub open spec fn rec_names(recs: Seq<PrincipalRecord>) -> Seq<Seq<char>> {
    recs.map_values(|r: PrincipalRecord| r.name@)
}

/// The tags of the first record with the given name; empty when there
/// is none.
pub open spec fn find_tags(recs: Seq<PrincipalRecord>, p: Seq<char>) -> Seq<
    (Seq<char>, Seq<char>),
>
    decreases recs.len(),
{
    if recs.len() == 0 {
        Seq::<(Seq<char>, Seq<char>)>::empty()
    } else if recs[0].name@ == p {
        tag_views(recs[0].tags@)
    } else {
        find_tags(recs.skip(1), p)
    }
}

/// At the first record carrying a name, `find_tags` reads that record.
proof fn lemma_find_tags_at(recs: Seq<PrincipalRecord>, i: int)
    requires
        0 <= i < recs.len(),
        forall|j: int| 0 <= j < i ==> (#[trigger] recs[j]).name@ != recs[i].name@,
    ensures
        find_tags(recs, recs[i].name@) == tag_views(recs[i].tags@),
    decreases i,
{
    if i > 0 {
        assert(forall|j: int|
            0 <= j < recs.skip(1).len() ==> (#[trigger] recs.skip(1)[j]) == recs[j + 1]);
        lemma_find_tags_at(recs.skip(1), i - 1);
    }
}

/// Without a record of the name, `find_tags` is empty.
proof fn lemma_find_tags_absent(recs: Seq<PrincipalRecord>, p: Seq<char>)
    requires
        forall|j: int| 0 <= j < recs.len() ==> (#[trigger] recs[j]).name@ != p,
    ensures
        find_tags(recs, p) == Seq::<(Seq<char>, Seq<char>)>::empty(),
    decreases recs.len(),
{
    if recs.len() > 0 {
        assert(forall|j: int|
            0 <= j < recs.skip(1).len() ==> (#[trigger] recs.skip(1)[j]) == recs[j + 1]);
        lemma_find_tags_absent(recs.skip(1), p);
    }
}

/// Rewriting one record's tags, name kept, moves `find_tags` only at
/// that name — and only when the record is the first of its name.
proof fn lemma_find_tags_update(recs: Seq<PrincipalRecord>, i: int, rec2: PrincipalRecord)
    requires
        0 <= i < recs.len(),
        rec2.name@ == recs[i].name@,
        forall|j: int| 0 <= j < i ==> (#[trigger] recs[j]).name@ != recs[i].name@,
    ensures
        rec_names(recs.update(i, rec2)) == rec_names(recs),
        find_tags(recs.update(i, rec2), recs[i].name@) == tag_views(rec2.tags@),
        forall|q: Seq<char>|
            q != recs[i].name@ ==> #[trigger] find_tags(recs.update(i, rec2), q) == find_tags(
                recs,
                q,
            ),
    decreases recs.len(),
{
    let upd = recs.update(i, rec2);
    assert(rec_names(upd) =~= rec_names(recs));
    if i == 0 {
        assert(upd[0] == rec2);
        assert(upd.skip(1) =~= recs.skip(1));
        assert forall|q: Seq<char>| q != recs[i].name@ implies #[trigger] find_tags(upd, q)
            == find_tags(recs, q) by {
            assert(find_tags(upd, q) == find_tags(upd.skip(1), q));
            assert(find_tags(recs, q) == find_tags(recs.skip(1), q));
        }
    } else {
        assert(upd[0] == recs[0]);
        assert(upd.skip(1) =~= recs.skip(1).update(i - 1, rec2));
        assert(forall|j: int|
            0 <= j < recs.skip(1).len() ==> (#[trigger] recs.skip(1)[j]) == recs[j + 1]);
        lemma_find_tags_update(recs.skip(1), i - 1, rec2);
        assert(recs.skip(1)[i - 1] == recs[i]);
        assert(recs[0].name@ != recs[i].name@);
        assert(find_tags(upd, recs[i].name@) == find_tags(upd.skip(1), recs[i].name@));
        assert forall|q: Seq<char>| q != recs[i].name@ implies #[trigger] find_tags(upd, q)
            == find_tags(recs, q) by {
            if recs[0].name@ == q {
                assert(find_tags(upd, q) == tag_views(upd[0].tags@));
                assert(find_tags(recs, q) == tag_views(recs[0].tags@));
            } else {
                assert(find_tags(upd, q) == find_tags(upd.skip(1), q));
                assert(find_tags(recs, q) == find_tags(recs.skip(1), q));
            }
        }
    }
}

/// Deep-copies a tag list.
fn clone_tags(ts: &Vec<TagRecord>) -> (r: Vec<TagRecord>)
    ensures
        tag_views(r@) == tag_views(ts@),
{
    let n = ts.len();
    let mut out: Vec<TagRecord> = Vec::new();
    let mut i: usize = 0;
    while i < n
        invariant
            0 <= i <= n,
            n == ts@.len(),
            tag_views(out@) == tag_views(ts@).take(i as int),
        decreases n - i,
    {
        let ghost before = tag_views(out@);
        out.push(TagRecord { key: ts[i].key.clone(), value: ts[i].value.clone() });
        proof {
            assert(tag_views(out@) =~= before.push(tag_views(ts@)[i as int]));
            assert(tag_views(ts@).take(i + 1) =~= tag_views(ts@).take(i as int).push(
                tag_views(ts@)[i as int],
            ));
        }
        i += 1;
    }
    proof {
        assert(tag_views(ts@).take(n as int) =~= tag_views(ts@));
    }
    out
}

/// Replaces the value under the first tag with this key, or appends the
/// tag, exactly as `upsert_pairs` describes.
fn upsert_tag_vec(tags: &mut Vec<TagRecord>, tag: TagRecord)
    ensures
        tag_views(final(tags)@) == upsert_pairs(tag_views(old(tags)@), tag.key@, tag.value@),
{
    let n = tags.len();
    let mut i: usize = 0;
    while i < n
        invariant
            0 <= i <= n,
            n == tags@.len(),
            tags@ == old(tags)@,
            forall|j: int| 0 <= j < i ==> (#[trigger] tag_views(tags@)[j]).0 != tag.key@,
        decreases n - i,
    {
        let hit = str_eq(tags[i].key.as_str(), tag.key.as_str());
        if hit {
            let ghost pairs = tag_views(tags@);
            proof {
                lemma_upsert_pairs_at(pairs, i as int, tag.key@, tag.value@);
            }
            tags[i] = tag;
            proof {
                assert(tag_views(tags@) =~= pairs.update(i as int, (pairs[i as int].0, tag.value@)));
            }
            return ;
        }
        i += 1;
    }
    let ghost pairs = tag_views(tags@);
    proof {
        lemma_upsert_pairs_absent(pairs, tag.key@, tag.value@);
    }
    tags.push(tag);
    proof {
        assert(tag_views(tags@) =~= pairs.push((tag.key@, tag.value@)));
    }
}

/// Removes every tag with exactly this key, exactly as
/// `remove_key_pairs` describes.
fn remove_tag_vec(tags: &Vec<TagRecord>, key: &str) -> (r: Vec<TagRecord>)
    ensures
        tag_views(r@) == remove_key_pairs(tag_views(tags@), key@),
{
    let n = tags.len();
    let mut out: Vec<TagRecord> = Vec::new();
    let mut i: usize = 0;
    proof {
        assert(tag_views(tags@).skip(0) =~= tag_views(tags@));
    }
    while i < n
        invariant
            0 <= i <= n,
            n == tags@.len(),
            remove_key_pairs(tag_views(tags@), key@) == tag_views(out@) + remove_key_pairs(
                tag_views(tags@).skip(i as int),
                key@,
            ),
        decreases n - i,
    {
        let ghost rest = tag_views(tags@).skip(i as int);
        proof {
            assert(rest[0] == tag_views(tags@)[i as int]);
            assert(rest.skip(1) =~= tag_views(tags@).skip(i + 1));
        }
        let hit = str_eq(tags[i].key.as_str(), key);
        if !hit {
            let ghost before = tag_views(out@);
            out.push(TagRecord { key: tags[i].key.clone(), value: tags[i].value.clone() });
            proof {
                assert(tag_views(out@) =~= before.push(rest[0]));
                assert(before + remove_key_pairs(rest, key@) =~= tag_views(out@)
                    + remove_key_pairs(rest.skip(1), key@));
            }
        }
        i += 1;
    }
    proof {
        assert(tag_views(tags@).skip(n as int) =~= Seq::<(Seq<char>, Seq<char>)>::empty());
        assert(tag_views(out@) + Seq::<(Seq<char>, Seq<char>)>::empty() =~= tag_views(out@));
    }
    out
}

/// Replacing the first pair carrying a key is `upsert_pairs`.
proof fn lemma_upsert_pairs_at(pairs: Seq<(Seq<char>, Seq<char>)>, i: int, k: Seq<char>, v: Seq<char>)
    requires
        0 <= i < pairs.len(),
        pairs[i].0 == k,
        forall|j: int| 0 <= j < i ==> (#[trigger] pairs[j]).0 != k,
    ensures
        upsert_pairs(pairs, k, v) == pairs.update(i, (k, v)),
    decreases i,
{
    if i == 0 {
        assert(upsert_pairs(pairs, k, v) =~= pairs.update(0, (k, v)));
    } else {
        assert(forall|j: int|
            0 <= j < pairs.skip(1).len() ==> (#[trigger] pairs.skip(1)[j]) == pairs[j + 1]);
        lemma_upsert_pairs_at(pairs.skip(1), i - 1, k, v);
        assert(upsert_pairs(pairs, k, v) =~= pairs.update(i, (k, v)));
    }
}

/// Appending is `upsert_pairs` when no pair carries the key.
proof fn lemma_upsert_pairs_absent(pairs: Seq<(Seq<char>, Seq<char>)>, k: Seq<char>, v: Seq<char>)
    requires
        forall|j: int| 0 <= j < pairs.len() ==> (#[trigger] pairs[j]).0 != k,
    ensures
        upsert_pairs(pairs, k, v) == pairs.push((k, v)),
    decreases pairs.len(),
{
    if pairs.len() == 0 {
        assert(upsert_pairs(pairs, k, v) =~= pairs.push((k, v)));
    } else {
        assert(forall|j: int|
            0 <= j < pairs.skip(1).len() ==> (#[trigger] pairs.skip(1)[j]) == pairs[j + 1]);
        lemma_upsert_pairs_absent(pairs.skip(1), k, v);
        assert(upsert_pairs(pairs, k, v) =~= pairs.push((k, v)));
    }
}

impl MemoryDirectory {
    /// Whether the provider refuses calls about this principal.
    fn is_denied(&self, p: &str) -> (r: bool)
        ensures
            r == views_of(self.denied@).contains(p@),
    {
        let n = self.denied.len();
        let mut i: usize = 0;
        while i < n
            invariant
                0 <= i <= n,
                n == self.denied@.len(),
                forall|j: int| 0 <= j < i ==> (#[trigger] views_of(self.denied@)[j]) != p@,
            decreases n - i,
        {
            if str_eq(self.denied[i].as_str(), p) {
                proof {
                    assert(views_of(self.denied@)[i as int] == p@);
                }
                return true;
            }
            i += 1;
        }
        proof {
            if views_of(self.denied@).contains(p@) {
                let j = choose|j: int|
                    0 <= j < views_of(self.denied@).len() && views_of(self.denied@)[j] == p@;
                assert(views_of(self.denied@)[j] != p@);
            }
        }
        false
    }

    /// The index of the first record with this name.
    fn find_record_index(&self, p: &str) -> (r: Option<usize>)
        ensures
            match r {
                Some(i) => {
                    &&& i < self.records@.len()
                    &&& self.records@[i as int].name@ == p@
                    &&& forall|j: int|
                        0 <= j < i ==> (#[trigger] self.records@[j]).name@ != p@
                    &&& rec_names(self.records@).contains(p@)
                    &&& find_tags(self.records@, p@) == tag_views(
                        self.records@[i as int].tags@,
                    )
                },
                None => !rec_names(self.records@).contains(p@) && find_tags(self.records@, p@)
                    == Seq::<(Seq<char>, Seq<char>)>::empty(),
            },
    {
        let n = self.records.len();
        let mut i: usize = 0;
        while i < n
            invariant
                0 <= i <= n,
                n == self.records@.len(),
                forall|j: int| 0 <= j < i ==> (#[trigger] self.records@[j]).name@ != p@,
            decreases n - i,
        {
            if str_eq(self.records[i].name.as_str(), p) {
                proof {
                    assert(rec_names(self.records@)[i as int] == p@);
                    lemma_find_tags_at(self.records@, i as int);
                }
                return Some(i);
            }
            i += 1;
        }
        proof {
            if rec_names(self.records@).contains(p@) {
                let j = choose|j: int|
                    0 <= j < rec_names(self.records@).len() && rec_names(self.records@)[j] == p@;
                assert(self.records@[j].name@ != p@);
            }
            lemma_find_tags_absent(self.records@, p@);
        }
        None
    }
}

impl PrincipalDirectory for MemoryDirectory {
    open spec fn names(&self) -> Seq<Seq<char>> {
        rec_names(self.records@)
    }

    open spec fn tags_of(&self, p: Seq<char>) -> Seq<(Seq<char>, Seq<char>)> {
        find_tags(self.records@, p)
    }

    open spec fn has_principal(&self, p: Seq<char>) -> bool {
        rec_names(self.records@).contains(p)
    }

    open spec fn failing(&self, p: Seq<char>) -> bool {
        views_of(self.denied@).contains(p)
    }

    open spec fn listing_fails(&self) -> bool {
        self.deny_listing
    }

    proof fn principals_are_named(&self, p: Seq<char>) {
    }

    fn list_principals(&self) -> (r: Result<Vec<String>, DirectoryError>) {
        if self.deny_listing {
            return Err(DirectoryError::Transport);
        }
        let n = self.records.len();
        let mut out: Vec<String> = Vec::new();
        let mut i: usize = 0;
        while i < n
            invariant
                0 <= i <= n,
                n == self.records@.len(),
                views_of(out@) == rec_names(self.records@).take(i as int),
            decreases n - i,
        {
            let ghost before = views_of(out@);
            out.push(self.records[i].name.clone());
            proof {
                assert(views_of(out@) =~= before.push(rec_names(self.records@)[i as int]));
                assert(rec_names(self.records@).take(i + 1) =~= rec_names(
                    self.records@,
                ).take(i as int).push(rec_names(self.records@)[i as int]));
            }
            i += 1;
        }
        proof {
            assert(rec_names(self.records@).take(n as int) =~= rec_names(self.records@));
        }
        Ok(out)
    }

    fn list_tags(&self, p: &str) -> (r: Result<Vec<TagRecord>, DirectoryError>) {
        if self.is_denied(p) {
            return Err(DirectoryError::Transport);
        }
        match self.find_record_index(p) {
            None => Err(DirectoryError::MissingPrincipal),
            Some(i) => Ok(clone_tags(&self.records[i].tags)),
        }
    }

    fn put_tag(&mut self, p: &str, tag: TagRecord) -> (r: Result<(), DirectoryError>) {
        if self.is_denied(p) {
            return Err(DirectoryError::Transport);
        }
        match self.find_record_index(p) {
            None => Err(DirectoryError::MissingPrincipal),
            Some(ri) => {
                let ghost recs = self.records@;
                let ghost old_tags = self.records@[ri as int].tags@;
                upsert_tag_vec(&mut self.records[ri].tags, tag);
                proof {
                    let rec2 = self.records@[ri as int];
                    assert(self.records@ =~= recs.update(ri as int, rec2));
                    lemma_find_tags_update(recs, ri as int, rec2);
                }
                Ok(())
            },
        }
    }

    fn remove_tag(&mut self, p: &str, key: &str) -> (r: Result<(), DirectoryError>) {
        if self.is_denied(p) {
            return Err(DirectoryError::Transport);
        }
        match self.find_record_index(p) {
            None => Err(DirectoryError::MissingPrincipal),
            Some(ri) => {
                let ghost recs = self.records@;
                let stripped = remove_tag_vec(&self.records[ri].tags, key);
                self.records[ri].tags = stripped;
                proof {
                    let rec2 = self.records@[ri as int];
                    assert(self.records@ =~= recs.update(ri as int, rec2));
                    lemma_find_tags_update(recs, ri as int, rec2);
                }
                Ok(())
            },
        }
    }
}

} // verus!
