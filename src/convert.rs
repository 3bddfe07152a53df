//! Entry points: from text, from pairs, and from a snapshot of the environment.
use vstd::prelude::*;
use vstd::utf8::{decode_utf8, valid_utf8};

use crate::de::{pair_views, walked, EnvVarDeserializer};
use crate::error::Error;
use crate::sanitize::{
    agrees, lemma_quoting_round_trip, lemma_trimmed_with_agrees, quote_or_space, trim_by, trim_quotes,
    trim_with, trimmed,
};
use crate::shape::{Field, Value};
use crate::text::{lines, lines_of, split_once_char, split_once_on, views};

verus! {

/// Pairs with both sides trimmed of quotes and spaces.
pub open spec fn trimmed_pairs(p: Seq<(Seq<char>, Seq<char>)>) -> Seq<(Seq<char>, Seq<char>)> {
    p.map_values(|x: (Seq<char>, Seq<char>)| (trimmed(x.0), trimmed(x.1)))
}

/// Pairs with both sides trimmed by the predicate `p`.
pub open spec fn trimmed_pairs_by(pairs: Seq<(Seq<char>, Seq<char>)>, p: spec_fn(char) -> bool) -> Seq<(Seq<char>, Seq<char>)> {
    pairs.map_values(|x: (Seq<char>, Seq<char>)| (trim_by(x.0, p), trim_by(x.1, p)))
}

/// The pairs that lines of text hold: each line with an `=` is cut at the first one, and
/// both sides are trimmed; lines without `=` are passed over.
pub open spec fn text_pairs(lines: Seq<Seq<char>>) -> Seq<(Seq<char>, Seq<char>)>
    decreases lines.len(),
{
    if lines.len() == 0 {
        Seq::empty()
    } else {
        let rest = text_pairs(lines.drop_last());
        match split_once_on(lines.last(), '=') {
            Some((k, v)) => rest.push((trimmed(k), trimmed(v))),
            None => rest,
        }
    }
}

/// The pairs that a text holds, one line at a time.
pub fn pairs_from_str(input: &str) -> (r: Vec<(String, String)>)
    ensures
        pair_views(r@) == text_pairs(lines_of(input@)),
{
    let ls = lines(input);
    let ghost lv = lines_of(input@);
    let mut out: Vec<(String, String)> = Vec::new();
    for i in 0..ls.len()
        invariant
            views(ls@) == lv,
            lv == lines_of(input@),
            pair_views(out@) == text_pairs(lv.take(i as int)),
    {
        assert(views(ls@)[i as int] == ls@[i as int]@);
        assert(lv.take(i + 1).drop_last() =~= lv.take(i as int));
        match split_once_char(ls[i].as_str(), '=') {
            Some((k, v)) => {
                let pair = (trim_quotes(k.as_str()), trim_quotes(v.as_str()));
                let ghost before = out@;
                out.push(pair);
                assert(pair_views(out@) =~= pair_views(before).push((pair.0@, pair.1@)));
            },
            None => {},
        }
    }
    assert(lv.take(ls@.len() as int) =~= lv);
    out
}

/// Both sides of each pair, trimmed of quotes and spaces.
pub fn trim_pairs(pairs: Vec<(String, String)>) -> (r: Vec<(String, String)>)
    ensures
        pair_views(r@) == trimmed_pairs(pair_views(pairs@)),
{
    let mut out: Vec<(String, String)> = Vec::new();
    for i in 0..pairs.len()
        invariant
            pair_views(out@) == trimmed_pairs(pair_views(pairs@)).take(i as int),
    {
        let pair = (trim_quotes(pairs[i].0.as_str()), trim_quotes(pairs[i].1.as_str()));
        let ghost before = out@;
        out.push(pair);
        assert(pair_views(out@) =~= pair_views(before).push((pair.0@, pair.1@)));
        assert(pair_views(out@) =~= trimmed_pairs(pair_views(pairs@)).take(i + 1));
    }
    assert(trimmed_pairs(pair_views(pairs@)).take(pairs@.len() as int) =~= trimmed_pairs(pair_views(pairs@)));
    out
}

/// Both sides of each pair, trimmed by `trimmer`.
pub fn trim_pairs_with<F: Fn(char) -> bool>(pairs: Vec<(String, String)>, trimmer: &F) -> (r: Vec<(String, String)>)
    requires
        forall|c: char| #[trigger] trimmer.requires((c,)),
    ensures
        forall|p: spec_fn(char) -> bool| #[trigger] agrees(*trimmer, p) ==> pair_views(r@) == trimmed_pairs_by(pair_views(pairs@), p),
{
    let mut out: Vec<(String, String)> = Vec::new();
    let mut i: usize = 0;
    while i < pairs.len()
        invariant
            forall|c: char| #[trigger] trimmer.requires((c,)),
            i <= pairs@.len(),
            out@.len() == i,
            forall|p: spec_fn(char) -> bool, j: int|
                #![trigger agrees(*trimmer, p), pair_views(out@)[j]]
                agrees(*trimmer, p) && 0 <= j < i ==> pair_views(out@)[j] == trimmed_pairs_by(pair_views(pairs@), p)[j],
        decreases pairs@.len() - i,
    {
        let key = trim_with(pairs[i].0.as_str(), trimmer);
        let value = trim_with(pairs[i].1.as_str(), trimmer);
        let pair = (key, value);
        let ghost before = out@;
        out.push(pair);
        assert forall|p: spec_fn(char) -> bool, j: int|
            #![trigger agrees(*trimmer, p), pair_views(out@)[j]]
            agrees(*trimmer, p) && 0 <= j < i + 1 implies pair_views(out@)[j] == trimmed_pairs_by(pair_views(pairs@), p)[j] by {
            if j < i {
                assert(out@[j] == before[j]);
                assert(pair_views(before)[j] == trimmed_pairs_by(pair_views(pairs@), p)[j]);
            } else {
                lemma_trimmed_with_agrees(*trimmer, p, pairs@[j].0@, key@);
                lemma_trimmed_with_agrees(*trimmer, p, pairs@[j].1@, value@);
            }
        }
        i = i + 1;
    }
    assert forall|p: spec_fn(char) -> bool| #[trigger] agrees(*trimmer, p) implies pair_views(out@) == trimmed_pairs_by(pair_views(pairs@), p) by {
        assert forall|j: int| 0 <= j < out@.len() implies pair_views(out@)[j] == trimmed_pairs_by(pair_views(pairs@), p)[j] by {
            assert(agrees(*trimmer, p) && 0 <= j < i);
        }
        assert(pair_views(out@) =~= trimmed_pairs_by(pair_views(pairs@), p));
    }
    out
}

/// Fills `fields` from a text of `key=value` lines.
pub fn from_str(input: &str, fields: &[Field]) -> (r: Result<Vec<Value>, Error>)
    ensures
        walked(fields@, text_pairs(lines_of(input@)), r, quote_or_space()),
{
    EnvVarDeserializer::new(pairs_from_str(input)).deserialize(fields)
}

/// Fills `fields` from pairs, with both sides trimmed of quotes and spaces.
pub fn from_iter(pairs: Vec<(String, String)>, fields: &[Field]) -> (r: Result<Vec<Value>, Error>)
    ensures
        walked(fields@, trimmed_pairs(pair_views(pairs@)), r, quote_or_space()),
{
    EnvVarDeserializer::new(trim_pairs(pairs)).deserialize(fields)
}

/// Fills `fields` from pairs, with `trimmer` as the trim predicate: it trims both sides of
/// each pair and the items of sequences.
pub fn from_iter_with_trimmer<F: Fn(char) -> bool>(pairs: Vec<(String, String)>, trimmer: F, fields: &[Field]) -> (r: Result<Vec<Value>, Error>)
    requires
        forall|c: char| #[trigger] trimmer.requires((c,)),
    ensures
        forall|p: spec_fn(char) -> bool| #[trigger] agrees(trimmer, p) ==> walked(fields@, trimmed_pairs_by(pair_views(pairs@), p), r, p),
{
    let trimmed = trim_pairs_with(pairs, &trimmer);
    EnvVarDeserializer::new(trimmed).deserialize_with(fields, &trimmer)
}

/// Fills `fields` from a snapshot of the environment's variables, taken as text.
pub fn from_env(vars: Vec<(String, String)>, fields: &[Field]) -> (r: Result<Vec<Value>, Error>)
    ensures
        walked(fields@, trimmed_pairs(pair_views(vars@)), r, quote_or_space()),
{
    from_iter(vars, fields)
}

/// Fills `fields` from a snapshot of the environment's variables taken as text, with both
/// sides trimmed by `trimmer`.
pub fn from_env_with_trimmer<F: Fn(char) -> bool>(vars: Vec<(String, String)>, trimmer: F, fields: &[Field]) -> (r: Result<Vec<Value>, Error>)
    requires
        forall|c: char| #[trigger] trimmer.requires((c,)),
    ensures
        forall|p: spec_fn(char) -> bool| #[trigger] agrees(trimmer, p) ==> walked(fields@, trimmed_pairs_by(pair_views(vars@), p), r, p),
{
    from_iter_with_trimmer(vars, trimmer, fields)
}

/// The first key or value, in order, that is not valid UTF-8 (a key before its value).
pub open spec fn first_invalid(vars: Seq<(Seq<u8>, Seq<u8>)>) -> Option<Seq<u8>>
    decreases vars.len(),
{
    if vars.len() == 0 {
        None
    } else if !valid_utf8(vars[0].0) {
        Some(vars[0].0)
    } else if !valid_utf8(vars[0].1) {
        Some(vars[0].1)
    } else {
        first_invalid(vars.drop_first())
    }
}

/// Raw pairs as byte sequences.
pub open spec fn raw_views(vars: Seq<(Vec<u8>, Vec<u8>)>) -> Seq<(Seq<u8>, Seq<u8>)> {
    vars.map_values(|x: (Vec<u8>, Vec<u8>)| (x.0@, x.1@))
}

/// Raw pairs decoded as UTF-8.
pub open spec fn decoded_pairs(vars: Seq<(Seq<u8>, Seq<u8>)>) -> Seq<(Seq<char>, Seq<char>)> {
    vars.map_values(|x: (Seq<u8>, Seq<u8>)| (decode_utf8(x.0), decode_utf8(x.1)))
}

/// Relies on `String::from_utf8`: it accepts exactly the valid UTF-8 sequences and decodes
/// them; otherwise `FromUtf8Error::into_bytes` hands the bytes back.
#[verifier::external_body]
fn utf8_string(b: Vec<u8>) -> (r: Result<String, Vec<u8>>)
    ensures
        match r {
            Ok(s) => valid_utf8(b@) && s@ == decode_utf8(b@),
            Err(e) => !valid_utf8(b@) && e@ == b@,
        },
{
    match String::from_utf8(b) {
        Ok(s) => Ok(s),
        Err(e) => Err(e.into_bytes()),
    }
}

/// The pairs of a raw snapshot as text, or the first key or value that is not valid UTF-8.
/// Nothing is converted unless every entry is valid.
pub fn maybe_invalid_unicode_vars_os(vars: Vec<(Vec<u8>, Vec<u8>)>) -> (r: Result<Vec<(String, String)>, Error>)
    ensures
        match first_invalid(raw_views(vars@)) {
            Some(raw) => match r {
                Err(Error::InvalidUnicode(b)) => b@ == raw,
                _ => false,
            },
            None => match r {
                Ok(ps) => pair_views(ps@) == decoded_pairs(raw_views(vars@)),
                _ => false,
            },
        },
{
    let ghost rv = raw_views(vars@);
    let mut out: Vec<(String, String)> = Vec::new();
    let mut i: usize = 0;
    assert(rv.skip(0) =~= rv);
    while i < vars.len()
        invariant
            rv == raw_views(vars@),
            i <= vars@.len(),
            first_invalid(rv) == first_invalid(rv.skip(i as int)),
            pair_views(out@) == decoded_pairs(rv).take(i as int),
        decreases vars@.len() - i,
    {
        let ghost rest = rv.skip(i as int);
        assert(rest[0] == (vars@[i as int].0@, vars@[i as int].1@));
        assert(rest.drop_first() =~= rv.skip(i + 1));
        let k = utf8_string(vars[i].0.clone());
        let key = match k {
            Ok(s) => s,
            Err(b) => {
                return Err(Error::InvalidUnicode(b));
            },
        };
        let v = utf8_string(vars[i].1.clone());
        let value = match v {
            Ok(s) => s,
            Err(b) => {
                return Err(Error::InvalidUnicode(b));
            },
        };
        let ghost before = out@;
        out.push((key, value));
        assert(pair_views(out@) =~= pair_views(before).push((key@, value@)));
        assert(pair_views(out@) =~= decoded_pairs(rv).take(i + 1));
        i = i + 1;
    }
    assert(rv.skip(i as int).len() == 0);
    assert(decoded_pairs(rv).take(i as int) =~= decoded_pairs(rv));
    Ok(out)
}

/// Fills `fields` from a raw snapshot of the environment's variables: the first key or value
/// that is not valid UTF-8 fails the whole call; else the pairs are trimmed as by `from_iter`.
pub fn from_os_env(vars: Vec<(Vec<u8>, Vec<u8>)>, fields: &[Field]) -> (r: Result<Vec<Value>, Error>)
    ensures
        match first_invalid(raw_views(vars@)) {
            Some(raw) => match r {
                Err(Error::InvalidUnicode(b)) => b@ == raw,
                _ => false,
            },
            None => walked(fields@, trimmed_pairs(decoded_pairs(raw_views(vars@))), r, quote_or_space()),
        },
{
    match maybe_invalid_unicode_vars_os(vars) {
        Ok(pairs) => from_iter(pairs, fields),
        Err(e) => Err(e),
    }
}

/// Fills `fields` from a raw snapshot of the environment's variables, with both sides
/// trimmed by `trimmer`.
pub fn from_os_env_with_trimmer<F: Fn(char) -> bool>(vars: Vec<(Vec<u8>, Vec<u8>)>, trimmer: F, fields: &[Field]) -> (r: Result<Vec<Value>, Error>)
    requires
        forall|c: char| #[trigger] trimmer.requires((c,)),
    ensures
        match first_invalid(raw_views(vars@)) {
            Some(raw) => match r {
                Err(Error::InvalidUnicode(b)) => b@ == raw,
                _ => false,
            },
            None => forall|p: spec_fn(char) -> bool| #[trigger] agrees(trimmer, p) ==> walked(
                fields@,
                trimmed_pairs_by(decoded_pairs(raw_views(vars@)), p),
                r,
                p,
            ),
        },
{
    match maybe_invalid_unicode_vars_os(vars) {
        Ok(pairs) => from_iter_with_trimmer(pairs, trimmer, fields),
        Err(e) => Err(e),
    }
}

/// Pairs whose values differ only in being wrapped in matching quotes are the same pairs once
/// trimmed, so any conversion from them has the same outcome.
pub proof fn lemma_quoted_pairs(a: Seq<(Seq<char>, Seq<char>)>, b: Seq<(Seq<char>, Seq<char>)>, q: char)
    requires
        q == '"' || q == '\'',
        a.len() == b.len(),
        forall|i: int|
            0 <= i < a.len() ==> #[trigger] b[i].0 == a[i].0 && (b[i].1 == a[i].1 || b[i].1 == seq![q] + a[i].1
                + seq![q]),
    ensures
        trimmed_pairs(a) == trimmed_pairs(b),
{
    assert forall|i: int| 0 <= i < a.len() implies trimmed_pairs(a)[i] == trimmed_pairs(b)[i] by {
        assert(b[i].0 == a[i].0);
        if b[i].1 != a[i].1 {
            lemma_quoting_round_trip(a[i].1, q);
        }
    }
    assert(trimmed_pairs(a) =~= trimmed_pairs(b));
}

/// A snapshot with a key or value that is not valid UTF-8 has a first such entry, so a
/// conversion from it fails with that entry's bytes and fills nothing.
pub proof fn lemma_invalid_entry_fails(vars: Seq<(Seq<u8>, Seq<u8>)>, i: int)
    requires
        0 <= i < vars.len(),
        !valid_utf8(vars[i].0) || !valid_utf8(vars[i].1),
    ensures
        first_invalid(vars) is Some,
    decreases i,
{
    if i > 0 && valid_utf8(vars[0].0) && valid_utf8(vars[0].1) {
        assert(vars.drop_first()[i - 1] == vars[i]);
        lemma_invalid_entry_fails(vars.drop_first(), i - 1);
    }
}

} // verus!
