//! Character-sequence tools shared by the ticket codec and the identity
//! helpers: splitting on a separator, joining with a separator, prefix
//! tests, trimming, and decimal integer parsing, each with a spec-level
//! counterpart.

use vstd::prelude::*;

verus! {

/// The views of a sequence of heap strings.
pub open spec fn views_of(ts: Seq<String>) -> Seq<Seq<char>> {
    ts.map_values(|t: String| t@)
}

/// Splitting on a separator, as `str::split` does: the result always has
/// at least one element, and a separator at the edge yields an empty
/// element there.
pub open spec fn split_on(s: Seq<char>, sep: char) -> Seq<Seq<char>>
    decreases s.len(),
{
    if s.len() == 0 {
        seq![Seq::<char>::empty()]
    } else if s[0] == sep {
        seq![Seq::<char>::empty()] + split_on(s.skip(1), sep)
    } else {
        let rest = split_on(s.skip(1), sep);
        seq![seq![s[0]] + rest[0]] + rest.skip(1)
    }
}

/// Joining with a separator, the inverse of `split_on` for parts free of
/// the separator.
pub open spec fn join_with(parts: Seq<Seq<char>>, sep: char) -> Seq<char>
    decreases parts.len(),
{
    if parts.len() == 0 {
        Seq::<char>::empty()
    } else if parts.len() == 1 {
        parts[0]
    } else {
        parts[0] + seq![sep] + join_with(parts.skip(1), sep)
    }
}

pub proof fn lemma_split_on_len(s: Seq<char>, sep: char)
    ensures
        split_on(s, sep).len() >= 1,
    decreases s.len(),
{
    if s.len() == 0 {
    } else if s[0] == sep {
        lemma_split_on_len(s.skip(1), sep);
    } else {
        lemma_split_on_len(s.skip(1), sep);
    }
}

/// Appending one character to the input extends the last element of the
/// split, or opens a fresh empty element when the character is the
/// separator.
pub proof fn lemma_split_on_push(s: Seq<char>, c: char, sep: char)
    ensures
        c == sep ==> split_on(s.push(c), sep) == split_on(s, sep).push(Seq::<char>::empty()),
        c != sep ==> split_on(s.push(c), sep) == split_on(s, sep).update(
            split_on(s, sep).len() - 1,
            split_on(s, sep).last().push(c),
        ),
    decreases s.len(),
{
    lemma_split_on_len(s, sep);
    if s.len() == 0 {
        let sc = s.push(c);
        assert(sc.len() == 1 && sc[0] == c);
        assert(sc.skip(1) =~= Seq::<char>::empty());
        assert(split_on(sc.skip(1), sep) == seq![Seq::<char>::empty()]);
        if c == sep {
            assert(split_on(sc, sep) == seq![Seq::<char>::empty()] + split_on(sc.skip(1), sep));
            assert(split_on(sc, sep) =~~= split_on(s, sep).push(Seq::<char>::empty()));
        } else {
            let rest = split_on(sc.skip(1), sep);
            assert(split_on(sc, sep) == seq![seq![c] + rest[0]] + rest.skip(1));
            assert(rest.skip(1) =~= Seq::<Seq<char>>::empty());
            assert(split_on(sc, sep) =~~= split_on(s, sep).update(
                0,
                split_on(s, sep).last().push(c),
            ));
        }
    } else {
        assert(s.push(c).skip(1) =~= s.skip(1).push(c));
        lemma_split_on_push(s.skip(1), c, sep);
        lemma_split_on_len(s.skip(1), sep);
        let rest = split_on(s.skip(1), sep);
        if s[0] == sep {
            if c == sep {
                assert(split_on(s.push(c), sep) =~= split_on(s, sep).push(Seq::<char>::empty()));
            } else {
                assert(split_on(s.push(c), sep) =~= split_on(s, sep).update(
                    split_on(s, sep).len() - 1,
                    split_on(s, sep).last().push(c),
                ));
            }
        } else {
            if c == sep {
                assert(split_on(s.push(c), sep) =~= split_on(s, sep).push(Seq::<char>::empty()));
            } else {
                if rest.len() == 1 {
                    assert(split_on(s.push(c), sep) =~= split_on(s, sep).update(
                        split_on(s, sep).len() - 1,
                        split_on(s, sep).last().push(c),
                    ));
                } else {
                    assert(split_on(s.push(c), sep) =~= split_on(s, sep).update(
                        split_on(s, sep).len() - 1,
                        split_on(s, sep).last().push(c),
                    ));
                }
            }
        }
    }
}

/// A sequence free of the separator splits into itself alone.
pub proof fn lemma_split_no_sep(t: Seq<char>, sep: char)
    requires
        !t.contains(sep),
    ensures
        split_on(t, sep) == seq![t],
    decreases t.len(),
{
    if t.len() == 0 {
        assert(split_on(t, sep) =~~= seq![t]);
    } else {
        assert(t[0] != sep);
        assert(!t.skip(1).contains(sep)) by {
            assert forall|i: int| 0 <= i < t.skip(1).len() implies t.skip(1)[i] != sep by {
                assert(t.skip(1)[i] == t[i + 1]);
            }
        }
        lemma_split_no_sep(t.skip(1), sep);
        assert(split_on(t, sep) =~~= seq![t]);
    }
}

/// Splitting a separated concatenation peels off the first part when that
/// part is free of the separator.
pub proof fn lemma_split_sep_concat(t: Seq<char>, rest: Seq<char>, sep: char)
    requires
        !t.contains(sep),
    ensures
        split_on(t + seq![sep] + rest, sep) == seq![t] + split_on(rest, sep),
    decreases t.len(),
{
    let s = t + seq![sep] + rest;
    if t.len() == 0 {
        assert(s[0] == sep);
        assert(s.skip(1) =~= rest);
        assert(split_on(s, sep) =~~= seq![t] + split_on(rest, sep));
    } else {
        assert(s[0] == t[0]);
        assert(t[0] != sep);
        assert(!t.skip(1).contains(sep)) by {
            assert forall|i: int| 0 <= i < t.skip(1).len() implies t.skip(1)[i] != sep by {
                assert(t.skip(1)[i] == t[i + 1]);
            }
        }
        assert(s.skip(1) =~= t.skip(1) + seq![sep] + rest);
        lemma_split_sep_concat(t.skip(1), rest, sep);
        lemma_split_on_len(rest, sep);
        assert(split_on(s, sep) =~~= seq![t] + split_on(rest, sep));
    }
}

/// Splitting undoes joining when every part is free of the separator.
pub proof fn lemma_split_join(parts: Seq<Seq<char>>, sep: char)
    requires
        parts.len() >= 1,
        forall|i: int| 0 <= i < parts.len() ==> !(#[trigger] parts[i]).contains(sep),
    ensures
        split_on(join_with(parts, sep), sep) == parts,
    decreases parts.len(),
{
    if parts.len() == 1 {
        lemma_split_no_sep(parts[0], sep);
        assert(split_on(join_with(parts, sep), sep) =~~= parts);
    } else {
        lemma_split_join(parts.skip(1), sep);
        lemma_split_sep_concat(parts[0], join_with(parts.skip(1), sep), sep);
        assert(split_on(join_with(parts, sep), sep) =~~= parts);
    }
}

/// Character-by-character string equality.
pub fn str_eq(a: &str, b: &str) -> (r: bool)
    ensures
        r == (a@ == b@),
{
    let a_len = a.unicode_len();
    let b_len = b.unicode_len();
    if a_len != b_len {
        return false;
    }
    let mut i: usize = 0;
    while i < a_len
        invariant
            0 <= i <= a_len,
            a_len == a@.len(),
            a_len == b@.len(),
            forall|j: int| 0 <= j < i ==> a@[j] == b@[j],
        decreases a_len - i,
    {
        if a.get_char(i) != b.get_char(i) {
            return false;
        }
        i += 1;
    }
    proof {
        assert(a@ =~= b@);
    }
    true
}

/// Whether `p` is a prefix of `s`.
pub open spec fn has_prefix(s: Seq<char>, p: Seq<char>) -> bool {
    s.len() >= p.len() && s.take(p.len() as int) == p
}

/// Character-by-character prefix test.
pub fn str_has_prefix(s: &str, p: &str) -> (r: bool)
    ensures
        r == has_prefix(s@, p@),
{
    let s_len = s.unicode_len();
    let p_len = p.unicode_len();
    if s_len < p_len {
        return false;
    }
    let mut i: usize = 0;
    while i < p_len
        invariant
            0 <= i <= p_len <= s_len,
            s_len == s@.len(),
            p_len == p@.len(),
            forall|j: int| 0 <= j < i ==> s@[j] == p@[j],
        decreases p_len - i,
    {
        if s.get_char(i) != p.get_char(i) {
            proof {
                assert(s@.take(p@.len() as int)[i as int] != p@[i as int]);
            }
            return false;
        }
        i += 1;
    }
    proof {
        assert(s@.take(p@.len() as int) =~= p@);
    }
    true
}

/// Splits on the separator, exactly as `split_on` describes.
pub fn split_char(s: &str, sep: char) -> (r: Vec<String>)
    ensures
        views_of(r@) == split_on(s@, sep),
{
    let len = s.unicode_len();
    let mut tokens: Vec<String> = Vec::new();
    let mut start: usize = 0;
    let mut i: usize = 0;
    proof {
        assert(s@.take(0) =~= Seq::<char>::empty());
        assert(views_of(tokens@).push(s@.subrange(0, 0)) =~~= split_on(s@.take(0), sep));
    }
    while i < len
        invariant
            0 <= start <= i <= len,
            len == s@.len(),
            views_of(tokens@).push(s@.subrange(start as int, i as int)) == split_on(
                s@.take(i as int),
                sep,
            ),
        decreases len - i,
    {
        let c = s.get_char(i);
        proof {
            assert(s@.take(i + 1) =~= s@.take(i as int).push(s@[i as int]));
            lemma_split_on_push(s@.take(i as int), s@[i as int], sep);
            lemma_split_on_len(s@.take(i as int), sep);
        }
        if c == sep {
            let tok = s.substring_char(start, i).to_owned();
            let ghost old_tokens = tokens@;
            tokens.push(tok);
            proof {
                assert(views_of(tokens@) =~= views_of(old_tokens).push(tok@));
                assert(s@.subrange(i + 1, i + 1) =~= Seq::<char>::empty());
                assert(views_of(tokens@).push(s@.subrange(i + 1, i + 1)) =~~= split_on(
                    s@.take(i + 1),
                    sep,
                ));
            }
            start = i + 1;
        } else {
            proof {
                assert(s@.subrange(start as int, i + 1) =~= s@.subrange(
                    start as int,
                    i as int,
                ).push(s@[i as int]));
                let before = views_of(tokens@).push(s@.subrange(start as int, i as int));
                assert(before.last() == s@.subrange(start as int, i as int));
                assert(before.update(before.len() - 1, before.last().push(s@[i as int])) =~~=
                    views_of(tokens@).push(s@.subrange(start as int, i + 1)));
            }
        }
        i += 1;
    }
    let tok = s.substring_char(start, len).to_owned();
    let ghost old_tokens = tokens@;
    tokens.push(tok);
    proof {
        assert(s@.take(len as int) =~= s@);
        assert(views_of(tokens@) =~= views_of(old_tokens).push(tok@));
        assert(views_of(tokens@) =~~= split_on(s@, sep));
    }
    tokens
}

/// Joining a non-empty pair of part lists inserts one separator between
/// them.
pub proof fn lemma_join_concat(a: Seq<Seq<char>>, b: Seq<Seq<char>>, sep: char)
    requires
        a.len() >= 1,
        b.len() >= 1,
    ensures
        join_with(a + b, sep) == join_with(a, sep) + seq![sep] + join_with(b, sep),
    decreases a.len(),
{
    if a.len() == 1 {
        assert((a + b).skip(1) =~= b);
        assert((a + b)[0] == a[0]);
        assert(join_with(a + b, sep) =~= join_with(a, sep) + seq![sep] + join_with(b, sep));
    } else {
        assert((a + b).skip(1) =~= a.skip(1) + b);
        lemma_join_concat(a.skip(1), b, sep);
        assert(join_with(a + b, sep) =~= join_with(a, sep) + seq![sep] + join_with(b, sep));
    }
}

/// Splitting a token once on its first `=`, as attribute pairs are read:
/// `None` when the token has no `=` at all.
pub open spec fn split_attr(t: Seq<char>) -> Option<(Seq<char>, Seq<char>)>
    decreases t.len(),
{
    if t.len() == 0 {
        None
    } else if t[0] == '=' {
        Some((Seq::<char>::empty(), t.skip(1)))
    } else {
        match split_attr(t.skip(1)) {
            None => None,
            Some(kv) => Some((seq![t[0]] + kv.0, kv.1)),
        }
    }
}

/// A key free of `=`, an `=`, and any value split back into exactly that
/// key and value.
pub proof fn lemma_split_attr_of_pair(k: Seq<char>, v: Seq<char>)
    requires
        !k.contains('='),
    ensures
        split_attr(k + seq!['='] + v) == Some((k, v)),
    decreases k.len(),
{
    let t = k + seq!['='] + v;
    if k.len() == 0 {
        assert(t[0] == '=');
        assert(t.skip(1) =~= v);
        assert(split_attr(t)->Some_0.0 =~= k);
    } else {
        assert(t[0] == k[0]);
        assert(k[0] != '=');
        assert(!k.skip(1).contains('=')) by {
            assert forall|i: int| 0 <= i < k.skip(1).len() implies k.skip(1)[i] != '=' by {
                assert(k.skip(1)[i] == k[i + 1]);
            }
        }
        assert(t.skip(1) =~= k.skip(1) + seq!['='] + v);
        lemma_split_attr_of_pair(k.skip(1), v);
        assert(split_attr(t)->Some_0.0 =~= k);
    }
}

/// Splitting at the first `=` of the token matches `split_attr`.
pub proof fn lemma_split_attr_at(t: Seq<char>, j: int)
    requires
        0 <= j < t.len(),
        t[j] == '=',
        forall|i: int| 0 <= i < j ==> t[i] != '=',
    ensures
        split_attr(t) == Some((t.take(j), t.skip(j + 1))),
    decreases j,
{
    if j == 0 {
        assert(t.take(0) =~= Seq::<char>::empty());
        assert(split_attr(t)->Some_0.0 =~= t.take(0));
    } else {
        assert(t[0] != '=');
        assert(t.skip(1)[j - 1] == t[j]);
        assert(forall|i: int| 0 <= i < j - 1 ==> #[trigger] t.skip(1)[i] == t[i + 1]);
        lemma_split_attr_at(t.skip(1), j - 1);
        assert(seq![t[0]] + t.skip(1).take(j - 1) =~= t.take(j));
        assert(t.skip(1).skip(j) =~= t.skip(j + 1));
        assert(split_attr(t) == Some((t.take(j), t.skip(j + 1))));
    }
}

/// A token without `=` splits to nothing.
pub proof fn lemma_split_attr_none(t: Seq<char>)
    requires
        !t.contains('='),
    ensures
        split_attr(t) is None,
    decreases t.len(),
{
    if t.len() == 0 {
    } else {
        assert(t[0] != '=');
        assert(!t.skip(1).contains('=')) by {
            assert forall|i: int| 0 <= i < t.skip(1).len() implies t.skip(1)[i] != '=' by {
                assert(t.skip(1)[i] == t[i + 1]);
            }
        }
        lemma_split_attr_none(t.skip(1));
    }
}

/// Splits a token once on its first `=`, exactly as `split_attr`
/// describes.
pub fn attr_pair(t: &str) -> (r: Option<(String, String)>)
    ensures
        match r {
            Some(kv) => split_attr(t@) == Some((kv.0@, kv.1@)),
            None => split_attr(t@) is None,
        },
{
    let len = t.unicode_len();
    let mut j: usize = 0;
    while j < len
        invariant
            0 <= j <= len,
            len == t@.len(),
            forall|i: int| 0 <= i < j ==> t@[i] != '=',
        decreases len - j,
    {
        if t.get_char(j) == '=' {
            let key = t.substring_char(0, j).to_owned();
            let value = t.substring_char(j + 1, len).to_owned();
            proof {
                lemma_split_attr_at(t@, j as int);
                assert(t@.subrange(0, j as int) =~= t@.take(j as int));
                assert(t@.subrange(j + 1, len as int) =~= t@.skip(j + 1));
            }
            return Some((key, value));
        }
        j += 1;
    }
    proof {
        lemma_split_attr_none(t@);
    }
    None
}

/// A decimal digit.
pub open spec fn is_dec_digit(c: char) -> bool {
    48 <= c as u32 <= 57
}

/// The value of one decimal digit.
pub open spec fn digit_val(c: char) -> int {
    c as u32 - 48
}

/// Every character is a decimal digit.
pub open spec fn all_dec_digits(s: Seq<char>) -> bool {
    forall|i: int| 0 <= i < s.len() ==> is_dec_digit(#[trigger] s[i])
}

/// The value of a decimal digit string.
pub open spec fn dec_val(s: Seq<char>) -> int
    decreases s.len(),
{
    if s.len() == 0 {
        0
    } else {
        dec_val(s.drop_last()) * 10 + digit_val(s.last())
    }
}

pub proof fn lemma_dec_val_nonneg(s: Seq<char>)
    requires
        all_dec_digits(s),
    ensures
        dec_val(s) >= 0,
    decreases s.len(),
{
    if s.len() > 0 {
        assert(all_dec_digits(s.drop_last()));
        lemma_dec_val_nonneg(s.drop_last());
    }
}

/// What `str::parse::<i64>` accepts: an optional sign, then at least one
/// decimal digit and nothing else, with the value in range.
pub open spec fn parse_i64_spec(s: Seq<char>) -> Option<int> {
    let signed = s.len() >= 1 && (s[0] == '+' || s[0] == '-');
    let body = if signed {
        s.skip(1)
    } else {
        s
    };
    let value = if s.len() >= 1 && s[0] == '-' {
        -dec_val(body)
    } else {
        dec_val(body)
    };
    if body.len() >= 1 && all_dec_digits(body) && -0x8000_0000_0000_0000 <= value
        <= 0x7fff_ffff_ffff_ffff {
        Some(value)
    } else {
        None
    }
}

/// Parses a decimal `i64`, exactly as `parse_i64_spec` describes.
pub fn parse_i64(s: &str) -> (r: Option<i64>)
    ensures
        match r {
            Some(v) => parse_i64_spec(s@) == Some(v as int),
            None => parse_i64_spec(s@) is None,
        },
{
    let len = s.unicode_len();
    if len == 0 {
        return None;
    }
    let c0 = s.get_char(0);
    let neg = c0 == '-';
    let start: usize = if c0 == '-' || c0 == '+' {
        1
    } else {
        0
    };
    let ghost body = s@.skip(start as int);
    proof {
        if start == 0 {
            assert(body =~= s@);
        }
    }
    if start == len {
        return None;
    }
    let cap: u64 = if neg {
        0x8000_0000_0000_0000
    } else {
        0x7fff_ffff_ffff_ffff
    };
    let mut mag: u64 = 0;
    let mut over = false;
    let mut j: usize = start;
    proof {
        assert(body.take(0) =~= Seq::<char>::empty());
    }
    while j < len
        invariant
            start <= j <= len,
            len == s@.len(),
            body == s@.skip(start as int),
            start <= 1,
            len > start,
            (start == 1) <==> (s@[0] == '+' || s@[0] == '-'),
            0x7fff_ffff_ffff_ffff <= cap <= 0x8000_0000_0000_0000,
            all_dec_digits(body.take(j - start)),
            !over ==> mag == dec_val(body.take(j - start)) && mag <= cap,
            over ==> dec_val(body.take(j - start)) > cap,
        decreases len - j,
    {
        let c = s.get_char(j);
        let cu = c as u32;
        if cu < 48 || cu > 57 {
            proof {
                if start == 0 {
                    assert(body =~= s@);
                }
                assert(body[j - start] == s@[j as int]);
                assert(!is_dec_digit(body[j - start]));
                assert(!all_dec_digits(body));
            }
            return None;
        }
        let d = (cu - 48) as u64;
        let ghost prefix = body.take(j - start);
        proof {
            assert(body.take(j - start + 1).drop_last() =~= prefix);
            assert(body.take(j - start + 1).last() == body[j - start]);
            assert(body[j - start] == s@[j as int]);
            assert(dec_val(body.take(j - start + 1)) == dec_val(prefix) * 10 + d);
            lemma_dec_val_nonneg(prefix);
        }
        if over {
            proof {
                assert(dec_val(body.take(j - start + 1)) > cap);
            }
        } else if mag > (cap - d) / 10 {
            proof {
                let q = ((cap - d) as u64 / 10) as int;
                assert((cap - d) == 10 * q + (cap - d) % 10) by {
                    vstd::arithmetic::div_mod::lemma_fundamental_div_mod((cap - d) as int, 10);
                }
                assert(mag * 10 >= (q + 1) * 10) by (nonlinear_arith)
                    requires
                        mag >= q + 1,
                ;
                assert(dec_val(body.take(j - start + 1)) > cap);
            }
            over = true;
        } else {
            proof {
                let q = ((cap - d) as u64 / 10) as int;
                assert((cap - d) == 10 * q + (cap - d) % 10) by {
                    vstd::arithmetic::div_mod::lemma_fundamental_div_mod((cap - d) as int, 10);
                }
                assert(mag * 10 <= q * 10) by (nonlinear_arith)
                    requires
                        mag <= q,
                ;
                assert(mag * 10 + d <= cap);
            }
            mag = mag * 10 + d;
        }
        j += 1;
    }
    proof {
        assert(body.take(len - start) =~= body);
        assert(body.len() >= 1);
    }
    if over {
        return None;
    }
    if neg {
        if mag == 0x8000_0000_0000_0000 {
            Some(i64::MIN)
        } else {
            Some(-(mag as i64))
        }
    } else {
        Some(mag as i64)
    }
}

/// The value of a least-significant-first digit list, continued by a
/// remainder still to be broken into digits.
pub open spec fn rev_val(ds: Seq<u8>, rem: int) -> int
    decreases ds.len(),
{
    if ds.len() == 0 {
        rem
    } else {
        ds[0] + 10 * rev_val(ds.skip(1), rem)
    }
}

pub proof fn lemma_rev_val_push(ds: Seq<u8>, d: u8, rem: int)
    ensures
        rev_val(ds.push(d), rem) == rev_val(ds, d + 10 * rem),
    decreases ds.len(),
{
    if ds.len() == 0 {
        assert(ds.push(d).skip(1) =~= Seq::<u8>::empty());
        assert(rev_val(Seq::<u8>::empty(), rem) == rem);
        assert(rev_val(ds.push(d), rem) == d + 10 * rem);
    } else {
        assert(ds.push(d).skip(1) =~= ds.skip(1).push(d));
        lemma_rev_val_push(ds.skip(1), d, rem);
        assert(rev_val(ds.push(d), rem) == ds[0] + 10 * rev_val(ds.skip(1).push(d), rem));
        assert(rev_val(ds, d + 10 * rem) == ds[0] + 10 * rev_val(ds.skip(1), d + 10 * rem));
    }
}

/// One decimal digit as a string.
fn digit_str(d: u8) -> (r: &'static str)
    requires
        d < 10,
    ensures
        r@.len() == 1,
        is_dec_digit(r@[0]),
        digit_val(r@[0]) == d as int,
{
    proof {
        reveal_strlit("0");
        reveal_strlit("1");
        reveal_strlit("2");
        reveal_strlit("3");
        reveal_strlit("4");
        reveal_strlit("5");
        reveal_strlit("6");
        reveal_strlit("7");
        reveal_strlit("8");
        reveal_strlit("9");
    }
    match d {
        0 => "0",
        1 => "1",
        2 => "2",
        3 => "3",
        4 => "4",
        5 => "5",
        6 => "6",
        7 => "7",
        8 => "8",
        _ => "9",
    }
}

/// The decimal digits of an unsigned value.
pub fn u64_to_dec(v: u64) -> (r: String)
    ensures
        all_dec_digits(r@),
        r@.len() >= 1,
        dec_val(r@) == v as int,
{
    let mut digits: Vec<u8> = Vec::new();
    let first = (v % 10) as u8;
    digits.push(first);
    let mut rem: u64 = v / 10;
    proof {
        assert(digits@ =~= Seq::<u8>::empty().push(first));
        lemma_rev_val_push(Seq::<u8>::empty(), first, rem as int);
        assert(first + 10 * (rem as int) == v as int) by {
            vstd::arithmetic::div_mod::lemma_fundamental_div_mod(v as int, 10);
        }
    }
    while rem > 0
        invariant
            rev_val(digits@, rem as int) == v as int,
            digits@.len() >= 1,
            forall|k: int| 0 <= k < digits@.len() ==> #[trigger] digits@[k] < 10,
        decreases rem,
    {
        let d = (rem % 10) as u8;
        let ghost old_digits = digits@;
        let ghost old_rem = rem as int;
        digits.push(d);
        rem = rem / 10;
        proof {
            lemma_rev_val_push(old_digits, d, rem as int);
            assert(d + 10 * (rem as int) == old_rem) by {
                vstd::arithmetic::div_mod::lemma_fundamental_div_mod(old_rem, 10);
            }
        }
    }
    let mut out = String::new();
    let mut i: usize = digits.len();
    proof {
        assert(digits@.skip(digits@.len() as int) =~= Seq::<u8>::empty());
        assert(rev_val(digits@, 0) == v as int);
    }
    while i > 0
        invariant
            0 <= i <= digits@.len(),
            all_dec_digits(out@),
            out@.len() == digits@.len() - i,
            dec_val(out@) == rev_val(digits@.skip(i as int), 0),
            rev_val(digits@, 0) == v as int,
            forall|k: int| 0 <= k < digits@.len() ==> #[trigger] digits@[k] < 10,
        decreases i,
    {
        let c = digit_str(digits[i - 1]);
        let ghost old_out = out@;
        out.append(c);
        proof {
            assert(out@.drop_last() =~= old_out);
            assert(out@.last() == c@[0]);
            assert(digits@.skip(i - 1).skip(1) =~= digits@.skip(i as int));
            assert(rev_val(digits@.skip(i - 1), 0) == digits@[i - 1] + 10 * rev_val(
                digits@.skip(i as int),
                0,
            ));
        }
        i -= 1;
    }
    proof {
        assert(digits@.skip(0) =~= digits@);
    }
    out
}

/// The canonical decimal form of a signed value; it parses back to the
/// value and is free of the codec's separators.
pub fn i64_to_dec(v: i64) -> (r: String)
    ensures
        parse_i64_spec(r@) == Some(v as int),
        !r@.contains('/'),
        !r@.contains('='),
{
    if v >= 0 {
        let r = u64_to_dec(v as u64);
        proof {
            assert(is_dec_digit(r@[0]));
            assert(r@[0] != '+' && r@[0] != '-') by {
                assert('+' as u32 == 43 && '-' as u32 == 45);
            }
            assert forall|i: int| 0 <= i < r@.len() implies r@[i] != '/' && r@[i] != '=' by {
                assert(is_dec_digit(r@[i]));
                assert('/' as u32 == 47 && '=' as u32 == 61);
            }
        }
        r
    } else {
        let mag: u64 = ((-(v + 1)) as u64) + 1;
        let tail = u64_to_dec(mag);
        let mut out = "-".to_owned();
        proof {
            reveal_strlit("-");
        }
        out.append(tail.as_str());
        proof {
            assert(out@[0] == '-');
            assert(out@.skip(1) =~= tail@);
            assert(-dec_val(tail@) == v as int);
            assert forall|i: int| 0 <= i < out@.len() implies out@[i] != '/' && out@[i] != '='
                by {
                if i >= 1 {
                    assert(out@[i] == tail@[i - 1]);
                    assert(is_dec_digit(tail@[i - 1]));
                }
                assert('/' as u32 == 47 && '=' as u32 == 61 && '-' as u32 == 45);
            }
        }
        out
    }
}

/// Trimming every copy of a character from both ends, as
/// `str::trim_matches` does for a plain character pattern.
pub open spec fn trim_char(s: Seq<char>, c: char) -> Seq<char>
    decreases s.len(),
{
    if s.len() == 0 {
        s
    } else if s[0] == c {
        trim_char(s.skip(1), c)
    } else if s.last() == c {
        trim_char(s.drop_last(), c)
    } else {
        s
    }
}

/// Trims every copy of a character from both ends.
pub fn trim_matching(s: &str, c: char) -> (r: String)
    ensures
        r@ == trim_char(s@, c),
{
    let len = s.unicode_len();
    proof {
        assert(s@.subrange(0, len as int) =~= s@);
    }
    let mut lo: usize = 0;
    while lo < len && s.get_char(lo) == c
        invariant
            0 <= lo <= len,
            len == s@.len(),
            trim_char(s@, c) == trim_char(s@.subrange(lo as int, len as int), c),
        decreases len - lo,
    {
        proof {
            assert(s@.subrange(lo as int, len as int).skip(1) =~= s@.subrange(
                lo + 1,
                len as int,
            ));
        }
        lo += 1;
    }
    let mut hi: usize = len;
    while hi > lo && s.get_char(hi - 1) == c
        invariant
            0 <= lo <= hi <= len,
            len == s@.len(),
            lo < len ==> s@[lo as int] != c,
            trim_char(s@, c) == trim_char(s@.subrange(lo as int, hi as int), c),
        decreases hi,
    {
        proof {
            assert(s@.subrange(lo as int, hi as int).drop_last() =~= s@.subrange(
                lo as int,
                hi - 1,
            ));
        }
        hi -= 1;
    }
    let r = s.substring_char(lo, hi).to_owned();
    proof {
        let tail = s@.subrange(lo as int, hi as int);
        if tail.len() > 0 {
            assert(tail[0] == s@[lo as int]);
            assert(tail.last() == s@[hi - 1]);
        }
    }
    r
}

} // verus!
