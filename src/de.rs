//! The value cell, the pair stream and the map walk that fill a shape from flat pairs.
use vstd::prelude::*;
use vstd::string::*;

use crate::error::Error;
use crate::parse::{
    parse_bool, parse_i16, parse_i32, parse_i64, parse_i8, parse_u16, parse_u32, parse_u64,
    parse_u8,
};
use crate::sanitize::{
    agrees, chars_of, is_quote_or_whitespace, lemma_default_agrees, lemma_trimmed_with_agrees,
    quote_or_space, trim_by, trim_with, trimmed_with,
};
use crate::shape::{
    converted, decode_error, decodes_to, duplicate_field_text, items_error, name_views, parse_failure,
    sequence_items, unit_mismatch, unknown_variant_text, variant_at, Field, Kind, Value,
};
use crate::text::{lower_of, lowercase, same_text, split_char, split_on, views};

verus! {

/// Relies on serde's `de::Error::unknown_variant`, raised as `serde::de::value::Error`: the
/// message it formats for `variant` and the declared names.
#[verifier::external_body]
fn unknown_variant_message(variant: &str, expected: &'static [&'static str]) -> (r: String)
    ensures
        r@ == unknown_variant_text(variant@, name_views(expected@)),
{
    let e: serde::de::value::Error = serde::de::Error::unknown_variant(variant, expected);
    e.to_string()
}

/// Relies on serde's `de::Error::duplicate_field`, raised as `serde::de::value::Error`: the
/// message it formats for `field`.
#[verifier::external_body]
fn duplicate_field_message(field: &'static str) -> (r: String)
    ensures
        r@ == duplicate_field_text(field@),
{
    let e: serde::de::value::Error = serde::de::Error::duplicate_field(field);
    e.to_string()
}

fn parse_failure_message(err: String, text: &str) -> (r: String)
    ensures
        r@ == parse_failure(err@, text@),
{
    let mut s = err;
    s.append(" while parsing value '");
    s.append(text);
    s.append("'");
    s
}

fn unit_mismatch_message(name: &str, found: &str) -> (r: String)
    ensures
        r@ == unit_mismatch(name@, found@),
{
    let mut s = String::from_str("expected unit struct with name '");
    s.append(name);
    s.append("', found '");
    s.append(found);
    s.append("'");
    s
}

/// The value of one pair: everything after the `=`.
#[derive(Debug)]
pub struct EnvVarValue(pub String);

impl View for EnvVarValue {
    type V = Seq<char>;

    open spec fn view(&self) -> Seq<char> {
        self.0@
    }
}

/// The characters of each cell.
pub open spec fn cell_views(v: Seq<EnvVarValue>) -> Seq<Seq<char>> {
    v.map_values(|c: EnvVarValue| c@)
}

impl EnvVarValue {
    /// A cell holding `text`.
    pub fn new(text: String) -> (r: EnvVarValue)
        ensures
            r@ == text@,
    {
        EnvVarValue(text)
    }

    /// Whether the cell stands for an absent optional value: its text is empty.
    pub fn is_absent(&self) -> (r: bool)
        ensures
            r == (self@.len() == 0),
    {
        self.0.as_str().unicode_len() == 0
    }

    /// The cells of the items when the value is read as a sequence, with `trimmer` as the
    /// trim predicate.
    pub fn deserialize_seq_with<F: Fn(char) -> bool>(&self, trimmer: &F) -> (r: Vec<EnvVarValue>)
        requires
            forall|c: char| #[trigger] trimmer.requires((c,)),
        ensures
            forall|p: spec_fn(char) -> bool| #[trigger] agrees(*trimmer, p) ==> cell_views(r@) == sequence_items(self@, p),
    {
        let cs = chars_of(self.0.as_str());
        let mut blank = true;
        let mut i: usize = 0;
        while i < cs.len()
            invariant
                forall|c: char| #[trigger] trimmer.requires((c,)),
                cs@ == self@,
                i <= cs@.len(),
                blank ==> forall|j: int| 0 <= j < i ==> #[trigger] trimmer.ensures((self@[j],), true),
                !blank ==> exists|j: int| 0 <= j < i && #[trigger] trimmer.ensures((self@[j],), false),
            decreases cs@.len() - i,
        {
            let strip = trimmer(cs[i]);
            if !strip {
                blank = false;
            }
            i = i + 1;
        }
        let mut out: Vec<EnvVarValue> = Vec::new();
        if blank {
            assert forall|p: spec_fn(char) -> bool| #[trigger] agrees(*trimmer, p) implies cell_views(out@) == sequence_items(self@, p) by {
                assert forall|j: int| 0 <= j < self@.len() implies p(#[trigger] self@[j]) by {
                    assert(trimmer.ensures((self@[j],), true));
                }
                assert(cell_views(out@) =~= Seq::<Seq<char>>::empty());
            }
            return out;
        }
        let pieces = split_char(self.0.as_str(), ',');
        let mut k: usize = 0;
        while k < pieces.len()
            invariant
                forall|c: char| #[trigger] trimmer.requires((c,)),
                views(pieces@) == split_on(self@, ','),
                k <= pieces@.len(),
                out@.len() == k,
                forall|j: int| 0 <= j < k ==> trimmed_with(*trimmer, pieces@[j]@, #[trigger] out@[j]@),
            decreases pieces@.len() - k,
        {
            let cell = EnvVarValue(trim_with(pieces[k].as_str(), trimmer));
            let ghost before = out@;
            out.push(cell);
            assert forall|j: int| 0 <= j < k + 1 implies trimmed_with(*trimmer, pieces@[j]@, #[trigger] out@[j]@) by {
                if j < k {
                    assert(out@[j] == before[j]);
                }
            }
            k = k + 1;
        }
        assert forall|p: spec_fn(char) -> bool| #[trigger] agrees(*trimmer, p) implies cell_views(out@) == sequence_items(self@, p) by {
            let j0 = choose|j: int| 0 <= j < self@.len() && #[trigger] trimmer.ensures((self@[j],), false);
            assert(!p(self@[j0]));
            let items = split_on(self@, ',').map_values(|x: Seq<char>| trim_by(x, p));
            assert forall|j: int| 0 <= j < items.len() implies cell_views(out@)[j] == items[j] by {
                assert(views(pieces@)[j] == pieces@[j]@);
                lemma_trimmed_with_agrees(*trimmer, p, pieces@[j]@, out@[j]@);
            }
            assert(cell_views(out@) =~= items);
        }
        out
    }

    /// The cells of the items when the value is read as a sequence.
    pub fn deserialize_seq(&self) -> (r: Vec<EnvVarValue>)
        ensures
            cell_views(r@) == sequence_items(self@, quote_or_space()),
    {
        proof {
            lemma_default_agrees();
        }
        self.deserialize_seq_with(&is_quote_or_whitespace)
    }

    /// Converts the cell's text to a value of `kind`.
    pub fn deserialize(&self, kind: &Kind) -> (r: Result<Value, Error>)
        ensures
            converted(*kind, self@, r, quote_or_space()),
    {
        proof {
            lemma_default_agrees();
        }
        self.deserialize_with(kind, &is_quote_or_whitespace)
    }

    /// Converts the cell's text to a value of `kind`, with `trimmer` as the trim predicate of
    /// sequence items.
    pub fn deserialize_with<F: Fn(char) -> bool>(&self, kind: &Kind, trimmer: &F) -> (r: Result<Value, Error>)
        requires
            forall|c: char| #[trigger] trimmer.requires((c,)),
        ensures
            forall|p: spec_fn(char) -> bool| #[trigger] agrees(*trimmer, p) ==> converted(*kind, self@, r, p),
        decreases kind, 2nat,
    {
        match kind {
            Kind::Sequence(_) => self.deserialize_sequence(kind, trimmer),
            Kind::Optional(k) => {
                if self.is_absent() {
                    Ok(Value::Absent)
                } else {
                    match self.deserialize_with(k, trimmer) {
                        Ok(v) => Ok(Value::Present(Box::new(v))),
                        Err(e) => Err(e),
                    }
                }
            },
            Kind::Newtype(k) => match self.deserialize_with(k, trimmer) {
                Ok(v) => Ok(Value::Newtype(Box::new(v))),
                Err(e) => Err(e),
            },
            Kind::Enumeration(names) => self.deserialize_enum(names),
            Kind::UnitStruct(name) => self.deserialize_unit_struct(name),
            _ => self.deserialize_leaf(kind),
        }
    }

    /// Converts each item of the text, read as a sequence.
    fn deserialize_sequence<F: Fn(char) -> bool>(&self, kind: &Kind, trimmer: &F) -> (r: Result<Value, Error>)
        requires
            kind is Sequence,
            forall|c: char| #[trigger] trimmer.requires((c,)),
        ensures
            forall|p: spec_fn(char) -> bool| #[trigger] agrees(*trimmer, p) ==> converted(*kind, self@, r, p),
        decreases kind, 1nat,
    {
        let k = match kind {
            Kind::Sequence(k) => k,
            _ => {
                return vstd::pervasive::unreached();
            },
        };
        let items = self.deserialize_seq_with(trimmer);
        match deserialize_items(&items, k, trimmer) {
            Ok(vs) => Ok(Value::Sequence(vs)),
            Err(e) => Err(e),
        }
    }

    /// Converts the text to a primitive, a string or a unit.
    fn deserialize_leaf(&self, kind: &Kind) -> (r: Result<Value, Error>)
        requires
            !(kind is Sequence || kind is Optional || kind is Newtype || kind is Enumeration
                || kind is UnitStruct),
        ensures
            forall|p: spec_fn(char) -> bool| #[trigger] converted(*kind, self@, r, p),
    {
        let text = self.0.as_str();
        match kind {
            Kind::Bool => {
                proof {
                    reveal_strlit("true");
                    reveal_strlit("false");
                }
                match parse_bool(text) {
                    Ok(b) => Ok(Value::Bool(b)),
                    Err(m) => Err(Error::Custom(parse_failure_message(m, text))),
                }
            },
            Kind::U8 => match parse_u8(text) {
                Ok(n) => Ok(Value::U8(n)),
                Err(m) => Err(Error::Custom(parse_failure_message(m, text))),
            },
            Kind::U16 => match parse_u16(text) {
                Ok(n) => Ok(Value::U16(n)),
                Err(m) => Err(Error::Custom(parse_failure_message(m, text))),
            },
            Kind::U32 => match parse_u32(text) {
                Ok(n) => Ok(Value::U32(n)),
                Err(m) => Err(Error::Custom(parse_failure_message(m, text))),
            },
            Kind::U64 => match parse_u64(text) {
                Ok(n) => Ok(Value::U64(n)),
                Err(m) => Err(Error::Custom(parse_failure_message(m, text))),
            },
            Kind::I8 => match parse_i8(text) {
                Ok(n) => Ok(Value::I8(n)),
                Err(m) => Err(Error::Custom(parse_failure_message(m, text))),
            },
            Kind::I16 => match parse_i16(text) {
                Ok(n) => Ok(Value::I16(n)),
                Err(m) => Err(Error::Custom(parse_failure_message(m, text))),
            },
            Kind::I32 => match parse_i32(text) {
                Ok(n) => Ok(Value::I32(n)),
                Err(m) => Err(Error::Custom(parse_failure_message(m, text))),
            },
            Kind::I64 => match parse_i64(text) {
                Ok(n) => Ok(Value::I64(n)),
                Err(m) => Err(Error::Custom(parse_failure_message(m, text))),
            },
            Kind::Str => Ok(Value::Str(self.0.clone())),
            Kind::Unit => Ok(Value::Unit),
            _ => vstd::pervasive::unreached(),
        }
    }

    /// Matches the text against the names of the variants.
    fn deserialize_enum(&self, names: &'static [&'static str]) -> (r: Result<Value, Error>)
        ensures
            forall|p: spec_fn(char) -> bool| #[trigger] converted(Kind::Enumeration(names), self@, r, p),
    {
        let text = self.0.as_str();
        let mut i: usize = 0;
        while i < names.len()
            invariant
                text@ == self@,
                i <= names@.len(),
                forall|j: int| 0 <= j < i ==> names@[j]@ != self@,
            decreases names@.len() - i,
        {
            if same_text(names[i], text) {
                assert(variant_at(names@, self@, i as int));
                return Ok(Value::Variant(i));
            }
            i = i + 1;
        }
        assert forall|x: int| !variant_at(names@, self@, x) by {
            if 0 <= x < names@.len() {
                assert(names@[x]@ != self@);
            }
        }
        Err(Error::Custom(unknown_variant_message(text, names)))
    }

    /// Checks the text against the name of a unit struct.
    fn deserialize_unit_struct(&self, name: &'static str) -> (r: Result<Value, Error>)
        ensures
            forall|p: spec_fn(char) -> bool| #[trigger] converted(Kind::UnitStruct(name), self@, r, p),
    {
        let text = self.0.as_str();
        if same_text(text, name) {
            Ok(Value::Unit)
        } else {
            Err(Error::Custom(unit_mismatch_message(name, text)))
        }
    }
}

/// Converts each item to `kind`, stopping at the first that fails.
fn deserialize_items<F: Fn(char) -> bool>(items: &Vec<EnvVarValue>, kind: &Kind, trimmer: &F) -> (r: Result<Vec<Value>, Error>)
    requires
        forall|c: char| #[trigger] trimmer.requires((c,)),
    ensures
        forall|p: spec_fn(char) -> bool| #[trigger] agrees(*trimmer, p) ==> match r {
            Ok(vs) => {
                &&& items_error(*kind, cell_views(items@), p) is None
                &&& vs@.len() == items@.len()
                &&& forall|j: int| 0 <= j < items@.len() ==> decodes_to(*kind, items@[j]@, #[trigger] vs@[j], p)
            },
            Err(Error::Custom(m)) => items_error(*kind, cell_views(items@), p) == Some(m@),
            Err(_) => false,
        },
    decreases kind, 3nat,
{
    let ghost texts = cell_views(items@);
    let mut out: Vec<Value> = Vec::new();
    let mut i: usize = 0;
    assert(texts.skip(0) =~= texts);
    while i < items.len()
        invariant
            forall|c: char| #[trigger] trimmer.requires((c,)),
            texts == cell_views(items@),
            out@.len() == i,
            i <= items@.len(),
            forall|p: spec_fn(char) -> bool| #[trigger] agrees(*trimmer, p) ==> items_error(*kind, texts, p)
                == items_error(*kind, texts.skip(i as int), p),
            forall|p: spec_fn(char) -> bool, j: int|
                #![trigger agrees(*trimmer, p), out@[j]]
                agrees(*trimmer, p) && 0 <= j < i ==> decodes_to(*kind, items@[j]@, out@[j], p),
        decreases items@.len() - i,
    {
        assert(texts.skip(i as int).len() > 0);
        assert(texts.skip(i as int)[0] == items@[i as int]@);
        assert(texts.skip(i as int).drop_first() =~= texts.skip(i + 1));
        let r = items[i].deserialize_with(kind, trimmer);
        match r {
            Ok(v) => {
                let ghost before = out@;
                out.push(v);
                assert forall|p: spec_fn(char) -> bool| #[trigger] agrees(*trimmer, p) implies items_error(*kind, texts, p)
                    == items_error(*kind, texts.skip(i + 1), p) by {
                    assert(converted(*kind, items@[i as int]@, Ok(v), p));
                    assert(items_error(*kind, texts.skip(i as int), p) == items_error(*kind, texts.skip(i + 1), p));
                }
                assert forall|p: spec_fn(char) -> bool, j: int|
                    #![trigger agrees(*trimmer, p), out@[j]]
                    agrees(*trimmer, p) && 0 <= j < i + 1 implies decodes_to(*kind, items@[j]@, out@[j], p) by {
                    if j < i {
                        assert(out@[j] == before[j]);
                    } else {
                        assert(converted(*kind, items@[i as int]@, Ok(v), p));
                    }
                }
            },
            Err(e) => {
                assert forall|p: spec_fn(char) -> bool| #[trigger] agrees(*trimmer, p) implies items_error(*kind, texts, p)
                    == decode_error(*kind, items@[i as int]@, p) by {
                    assert(converted(*kind, items@[i as int]@, Err(e), p));
                    assert(items_error(*kind, texts.skip(i as int), p) == decode_error(*kind, texts.skip(i as int)[0], p));
                }
                return Err(e);
            },
        }
        i = i + 1;
    }
    assert(texts.skip(i as int).len() == 0);
    Ok(out)
}

/// Pairs as characters.
pub open spec fn pair_views(p: Seq<(String, String)>) -> Seq<(Seq<char>, Seq<char>)> {
    p.map_values(|x: (String, String)| (x.0@, x.1@))
}

/// `i` is the first field named `key`.
pub open spec fn field_at(fields: Seq<Field>, key: Seq<char>, i: int) -> bool {
    &&& 0 <= i < fields.len()
    &&& fields[i].name@ == key
    &&& forall|j: int| 0 <= j < i ==> fields[j].name@ != key
}

/// The field named `key`, if there is one.
pub open spec fn field_of(fields: Seq<Field>, key: Seq<char>) -> Option<int> {
    if exists|i: int| field_at(fields, key, i) {
        Some(choose|i: int| field_at(fields, key, i))
    } else {
        None
    }
}

/// The field that pair `j` fills: the one named by the pair's key in lowercase.
pub open spec fn named_field(fields: Seq<Field>, pairs: Seq<(Seq<char>, Seq<char>)>, j: int) -> Option<int> {
    field_of(fields, lower_of(pairs[j].0))
}

/// What goes wrong at pair `j`: its field was filled by an earlier pair, or its value does
/// not convert.
pub open spec fn pair_error(fields: Seq<Field>, pairs: Seq<(Seq<char>, Seq<char>)>, j: int, p: spec_fn(char) -> bool) -> Option<Seq<char>> {
    match named_field(fields, pairs, j) {
        None => None,
        Some(i) => if exists|k: int| 0 <= k < j && named_field(fields, pairs, k) == Some(i) {
            Some(duplicate_field_text(fields[i].name@))
        } else {
            decode_error(fields[i].kind, pairs[j].1, p)
        },
    }
}

/// The first failure among the first `n` pairs.
pub open spec fn pairs_error(fields: Seq<Field>, pairs: Seq<(Seq<char>, Seq<char>)>, n: int, p: spec_fn(char) -> bool) -> Option<Seq<char>>
    decreases n,
{
    if n <= 0 {
        None
    } else {
        match pairs_error(fields, pairs, n - 1, p) {
            Some(m) => Some(m),
            None => pair_error(fields, pairs, n - 1, p),
        }
    }
}

/// Some pair fills field `i`.
pub open spec fn is_named(fields: Seq<Field>, pairs: Seq<(Seq<char>, Seq<char>)>, i: int) -> bool {
    exists|j: int| 0 <= j < pairs.len() && named_field(fields, pairs, j) == Some(i)
}

/// Field `i` is required and no pair fills it.
pub open spec fn missing(fields: Seq<Field>, pairs: Seq<(Seq<char>, Seq<char>)>, i: int) -> bool {
    !is_named(fields, pairs, i) && !(fields[i].kind is Optional)
}

/// The first missing field among the first `n`.
pub open spec fn first_missing(fields: Seq<Field>, pairs: Seq<(Seq<char>, Seq<char>)>, n: int) -> Option<int>
    decreases n,
{
    if n <= 0 {
        None
    } else {
        match first_missing(fields, pairs, n - 1) {
            Some(i) => Some(i),
            None => if missing(fields, pairs, n - 1) {
                Some(n - 1)
            } else {
                None
            },
        }
    }
}

/// `v` is the value of field `i`: converted from the pair that fills it, else absent.
pub open spec fn fills(fields: Seq<Field>, pairs: Seq<(Seq<char>, Seq<char>)>, i: int, v: Value, p: spec_fn(char) -> bool) -> bool {
    &&& forall|j: int|
        0 <= j < pairs.len() && #[trigger] named_field(fields, pairs, j) == Some(i) ==> decodes_to(
            fields[i].kind,
            pairs[j].1,
            v,
            p,
        )
    &&& !is_named(fields, pairs, i) ==> v == Value::Absent
}

/// `r` is the outcome of filling `fields` from `pairs`, taken in order, with sequence items
/// trimmed by `p`: the first pair that fails decides the error; else the first required
/// field that no pair fills; else one value per field.
pub open spec fn walked(
    fields: Seq<Field>,
    pairs: Seq<(Seq<char>, Seq<char>)>,
    r: Result<Vec<Value>, Error>,
    p: spec_fn(char) -> bool,
) -> bool {
    match pairs_error(fields, pairs, pairs.len() as int, p) {
        Some(m) => match r {
            Err(Error::Custom(e)) => e@ == m,
            _ => false,
        },
        None => match first_missing(fields, pairs, fields.len() as int) {
            Some(i) => match r {
                Err(Error::MissingValue(name)) => name@ == fields[i].name@,
                _ => false,
            },
            None => match r {
                Ok(vs) => {
                    &&& vs@.len() == fields.len()
                    &&& forall|i: int| 0 <= i < fields.len() ==> fills(fields, pairs, i, #[trigger] vs@[i], p)
                },
                _ => false,
            },
        },
    }
}

/// A failure among the first `n` pairs stays the first failure.
pub proof fn lemma_pairs_error_stays(fields: Seq<Field>, pairs: Seq<(Seq<char>, Seq<char>)>, n: int, m: int, p: spec_fn(char) -> bool)
    requires
        n <= m,
        pairs_error(fields, pairs, n, p) is Some,
    ensures
        pairs_error(fields, pairs, m, p) == pairs_error(fields, pairs, n, p),
    decreases m - n,
{
    if n < m {
        lemma_pairs_error_stays(fields, pairs, n, m - 1, p);
    }
}

/// The field named `key`.
fn find_field(fields: &[Field], key: &str) -> (r: Option<usize>)
    ensures
        match r {
            Some(i) => field_of(fields@, key@) == Some(i as int) && i < fields@.len(),
            None => field_of(fields@, key@) is None,
        },
{
    let mut i: usize = 0;
    while i < fields.len()
        invariant
            i <= fields@.len(),
            forall|j: int| 0 <= j < i ==> fields@[j].name@ != key@,
        decreases fields@.len() - i,
    {
        if same_text(fields[i].name, key) {
            assert(field_at(fields@, key@, i as int));
            let ghost c = choose|c: int| field_at(fields@, key@, c);
            assert(c == i) by {
                if c < i {
                    assert(fields@[c].name@ != key@);
                } else if c > i {
                    assert(fields@[i as int].name@ != key@);
                }
            }
            return Some(i);
        }
        i = i + 1;
    }
    assert forall|c: int| !field_at(fields@, key@, c) by {
        if 0 <= c < fields@.len() {
            assert(fields@[c].name@ != key@);
        }
    }
    None
}

/// A stream of pairs that hands out each key in lowercase with its value as a cell.
#[derive(Debug)]
pub struct EnvVars {
    pairs: Vec<(String, String)>,
    pos: usize,
}

impl EnvVars {
    /// The pairs still to come.
    pub closed spec fn remaining(&self) -> Seq<(Seq<char>, Seq<char>)> {
        if self.pos <= self.pairs@.len() {
            pair_views(self.pairs@).skip(self.pos as int)
        } else {
            Seq::empty()
        }
    }

    /// How many pairs are still to come.
    pub fn len(&self) -> (r: usize)
        ensures
            r == self.remaining().len(),
    {
        if self.pos <= self.pairs.len() {
            self.pairs.len() - self.pos
        } else {
            0
        }
    }

    /// A stream over `pairs`, in their order.
    pub fn new(pairs: Vec<(String, String)>) -> (r: EnvVars)
        ensures
            r.remaining() == pair_views(pairs@),
    {
        let r = EnvVars { pairs, pos: 0 };
        assert(pair_views(r.pairs@).skip(0) =~= pair_views(r.pairs@));
        r
    }

    /// The next pair, with its key in lowercase; `None` once the pairs are used up.
    pub fn next(&mut self) -> (r: Option<(String, EnvVarValue)>)
        ensures
            match r {
                Some((k, v)) => {
                    &&& old(self).remaining().len() > 0
                    &&& k@ == lower_of(old(self).remaining()[0].0)
                    &&& v@ == old(self).remaining()[0].1
                    &&& final(self).remaining() == old(self).remaining().drop_first()
                },
                None => old(self).remaining().len() == 0 && final(self).remaining() == old(self).remaining(),
            },
    {
        if self.pos >= self.pairs.len() {
            return None;
        }
        let ghost before = pair_views(self.pairs@);
        let key = lowercase(self.pairs[self.pos].0.as_str());
        let value = EnvVarValue(self.pairs[self.pos].1.clone());
        self.pos = self.pos + 1;
        assert(before.skip(self.pos - 1).drop_first() =~= before.skip(self.pos as int));
        Some((key, value))
    }
}

/// Fills a shape from a stream of pairs: each pair whose lowercase key names a field gives
/// that field its value; pairs that name no field are passed over.
#[derive(Debug)]
pub struct EnvVarDeserializer {
    inner: EnvVars,
}

impl EnvVarDeserializer {
    /// The pairs that the deserializer will read.
    pub closed spec fn pairs(&self) -> Seq<(Seq<char>, Seq<char>)> {
        self.inner.remaining()
    }

    /// A deserializer over `pairs`.
    pub fn new(pairs: Vec<(String, String)>) -> (r: EnvVarDeserializer)
        ensures
            r.pairs() == pair_views(pairs@),
    {
        EnvVarDeserializer { inner: EnvVars::new(pairs) }
    }

    /// Fills `fields` from the pairs.
    pub fn deserialize(self, fields: &[Field]) -> (r: Result<Vec<Value>, Error>)
        ensures
            walked(fields@, self.pairs(), r, quote_or_space()),
    {
        proof {
            lemma_default_agrees();
        }
        self.deserialize_with(fields, &is_quote_or_whitespace)
    }

    /// Fills `fields` from the pairs, with `trimmer` as the trim predicate of sequence items.
    pub fn deserialize_with<F: Fn(char) -> bool>(self, fields: &[Field], trimmer: &F) -> (r: Result<Vec<Value>, Error>)
        requires
            forall|c: char| #[trigger] trimmer.requires((c,)),
        ensures
            forall|p: spec_fn(char) -> bool| #[trigger] agrees(*trimmer, p) ==> walked(fields@, self.pairs(), r, p),
    {
        let ghost ps = self.pairs();
        let mut stream = self.inner;
        let n = fields.len();
        let mut values: Vec<Value> = Vec::new();
        let mut filled: Vec<bool> = Vec::new();
        let ghost mut src: Seq<int> = Seq::empty();
        for i in 0..n
            invariant
                n == fields@.len(),
                values@.len() == i,
                filled@.len() == i,
                forall|x: int| 0 <= x < i ==> !filled@[x] && values@[x] == Value::Absent,
        {
            values.push(Value::Absent);
            filled.push(false);
        }
        proof {
            src = Seq::new(n as nat, |x: int| -1);
        }
        let total = stream.len();
        let mut j: usize = 0;
        while j < total
            invariant
                forall|c: char| #[trigger] trimmer.requires((c,)),
                ps == self.pairs(),
                total == ps.len(),
                n == fields@.len(),
                values@.len() == n,
                filled@.len() == n,
                src.len() == n,
                0 <= j <= ps.len(),
                stream.remaining() == ps.skip(j as int),
                forall|p: spec_fn(char) -> bool| #[trigger] agrees(*trimmer, p) ==> pairs_error(fields@, ps, j as int, p) is None,
                forall|x: int| 0 <= x < n ==> (#[trigger] filled@[x] <==> src[x] >= 0),
                forall|x: int|
                    #![trigger filled@[x]]
                    0 <= x < n && filled@[x] ==> 0 <= src[x] < j && named_field(fields@, ps, src[x]) == Some(x),
                forall|p: spec_fn(char) -> bool, x: int|
                    #![trigger agrees(*trimmer, p), values@[x]]
                    agrees(*trimmer, p) && 0 <= x < n && filled@[x] ==> decodes_to(fields@[x].kind, ps[src[x]].1, values@[x], p),
                forall|x: int| 0 <= x < n && !filled@[x] ==> values@[x] == Value::Absent,
                forall|k: int|
                    0 <= k < j && (#[trigger] named_field(fields@, ps, k)) is Some ==> filled@[named_field(fields@, ps, k)->0]
                        && src[named_field(fields@, ps, k)->0] == k,
            decreases ps.len() - j,
        {
            let next = stream.next();
            match next {
                None => {
                    return vstd::pervasive::unreached();
                },
                Some((key, value)) => {
                    assert(ps.skip(j as int)[0] == ps[j as int]);
                    let found = find_field(fields, key.as_str());
                    match found {
                        None => {
                            assert forall|p: spec_fn(char) -> bool| #[trigger] agrees(*trimmer, p) implies pairs_error(fields@, ps, j + 1, p) is None by {
                                assert(pairs_error(fields@, ps, j as int, p) is None);
                            }
                        },
                        Some(i) => {
                            if filled[i] {
                                assert(named_field(fields@, ps, src[i as int]) == Some(i as int));
                                let msg = duplicate_field_message(fields[i].name);
                                assert forall|p: spec_fn(char) -> bool| #[trigger] agrees(*trimmer, p) implies walked(fields@, ps, Err(Error::Custom(msg)), p) by {
                                    assert(pairs_error(fields@, ps, j as int, p) is None);
                                    assert(pair_error(fields@, ps, j as int, p) == Some(duplicate_field_text(fields@[i as int].name@)));
                                    assert(pairs_error(fields@, ps, j + 1, p) == pair_error(fields@, ps, j as int, p));
                                    lemma_pairs_error_stays(fields@, ps, j + 1, ps.len() as int, p);
                                }
                                return Err(Error::Custom(msg));
                            }
                            assert(!(exists|k: int| 0 <= k < j && named_field(fields@, ps, k) == Some(i as int)));
                            match value.deserialize_with(&fields[i].kind, trimmer) {
                                Err(e) => {
                                    assert forall|p: spec_fn(char) -> bool| #[trigger] agrees(*trimmer, p) implies walked(fields@, ps, Err(e), p) by {
                                        assert(converted(fields@[i as int].kind, ps[j as int].1, Err(e), p));
                                        assert(pairs_error(fields@, ps, j as int, p) is None);
                                        assert(pair_error(fields@, ps, j as int, p) == decode_error(fields@[i as int].kind, ps[j as int].1, p));
                                        assert(pairs_error(fields@, ps, j + 1, p) == pair_error(fields@, ps, j as int, p));
                                        lemma_pairs_error_stays(fields@, ps, j + 1, ps.len() as int, p);
                                    }
                                    return Err(e);
                                },
                                Ok(v) => {
                                    let ghost before = values@;
                                    values.set(i, v);
                                    filled.set(i, true);
                                    proof {
                                        src = src.update(i as int, j as int);
                                    }
                                    assert forall|p: spec_fn(char) -> bool| #[trigger] agrees(*trimmer, p) implies pairs_error(fields@, ps, j + 1, p) is None by {
                                        assert(converted(fields@[i as int].kind, ps[j as int].1, Ok(v), p));
                                        assert(pairs_error(fields@, ps, j as int, p) is None);
                                        assert(pair_error(fields@, ps, j as int, p) == decode_error(fields@[i as int].kind, ps[j as int].1, p));
                                    }
                                    assert forall|p: spec_fn(char) -> bool, x: int|
                                        #![trigger agrees(*trimmer, p), values@[x]]
                                        agrees(*trimmer, p) && 0 <= x < n && filled@[x] implies decodes_to(fields@[x].kind, ps[src[x]].1, values@[x], p) by {
                                        if x == i {
                                            assert(converted(fields@[i as int].kind, ps[j as int].1, Ok(v), p));
                                        } else {
                                            assert(values@[x] == before[x]);
                                        }
                                    }
                                },
                            }
                        },
                    }
                    j = j + 1;
                },
            }
        }
        let mut i: usize = 0;
        while i < n
            invariant
                ps == self.pairs(),
                n == fields@.len(),
                values@.len() == n,
                filled@.len() == n,
                src.len() == n,
                j == ps.len(),
                i <= n,
                forall|p: spec_fn(char) -> bool| #[trigger] agrees(*trimmer, p) ==> pairs_error(fields@, ps, ps.len() as int, p) is None,
                first_missing(fields@, ps, i as int) is None,
                forall|x: int| 0 <= x < n ==> (#[trigger] filled@[x] <==> src[x] >= 0),
                forall|x: int|
                    #![trigger filled@[x]]
                    0 <= x < n && filled@[x] ==> 0 <= src[x] < j && named_field(fields@, ps, src[x]) == Some(x),
                forall|p: spec_fn(char) -> bool, x: int|
                    #![trigger agrees(*trimmer, p), values@[x]]
                    agrees(*trimmer, p) && 0 <= x < n && filled@[x] ==> decodes_to(fields@[x].kind, ps[src[x]].1, values@[x], p),
                forall|x: int| 0 <= x < n && !filled@[x] ==> values@[x] == Value::Absent,
                forall|k: int|
                    0 <= k < j && (#[trigger] named_field(fields@, ps, k)) is Some ==> filled@[named_field(fields@, ps, k)->0]
                        && src[named_field(fields@, ps, k)->0] == k,
            decreases n - i,
        {
            if !filled[i] {
                assert(!is_named(fields@, ps, i as int));
                let optional = match &fields[i].kind {
                    Kind::Optional(_) => true,
                    _ => false,
                };
                if !optional {
                    assert(missing(fields@, ps, i as int));
                    assert(first_missing(fields@, ps, i + 1) == Some(i as int));
                    proof {
                        lemma_first_missing_stays(fields@, ps, i + 1, n as int);
                    }
                    let name = fields[i].name.to_owned();
                    assert(first_missing(fields@, ps, n as int) == Some(i as int));
                    assert(name@ == fields@[i as int].name@);
                    return Err(Error::MissingValue(name));
                }
            } else {
                assert(is_named(fields@, ps, i as int));
            }
            i = i + 1;
        }
        assert forall|p: spec_fn(char) -> bool| #[trigger] agrees(*trimmer, p) implies walked(fields@, ps, Ok(values), p) by {
            assert forall|x: int| 0 <= x < n implies fills(fields@, ps, x, #[trigger] values@[x], p) by {
                assert forall|k: int| 0 <= k < ps.len() && #[trigger] named_field(fields@, ps, k) == Some(x) implies decodes_to(
                    fields@[x].kind,
                    ps[k].1,
                    values@[x],
                    p,
                ) by {
                    assert(filled@[x] && src[x] == k);
                }
            }
        }
        Ok(values)
    }
}

/// A missing field among the first `n` stays the first missing field.
pub proof fn lemma_first_missing_stays(fields: Seq<Field>, pairs: Seq<(Seq<char>, Seq<char>)>, n: int, m: int)
    requires
        n <= m,
        first_missing(fields, pairs, n) is Some,
    ensures
        first_missing(fields, pairs, m) == first_missing(fields, pairs, n),
    decreases m - n,
{
    if n < m {
        lemma_first_missing_stays(fields, pairs, n, m - 1);
    }
}

/// Keys are matched in lowercase: pairs whose keys have the same lowercase form, with the
/// same values, fill a shape with the same outcome.
pub proof fn lemma_case_insensitive_keys(
    fields: Seq<Field>,
    a: Seq<(Seq<char>, Seq<char>)>,
    b: Seq<(Seq<char>, Seq<char>)>,
    r: Result<Vec<Value>, Error>,
    p: spec_fn(char) -> bool,
)
    requires
        a.len() == b.len(),
        forall|j: int| 0 <= j < a.len() ==> lower_of(#[trigger] a[j].0) == lower_of(b[j].0) && a[j].1 == b[j].1,
    ensures
        walked(fields, a, r, p) == walked(fields, b, r, p),
{
    assert forall|j: int| 0 <= j < a.len() implies #[trigger] named_field(fields, a, j) == named_field(fields, b, j) by {
        assert(lower_of(a[j].0) == lower_of(b[j].0));
    }
    assert forall|j: int| 0 <= j < a.len() implies #[trigger] pair_error(fields, a, j, p) == pair_error(fields, b, j, p) by {
        assert(named_field(fields, a, j) == named_field(fields, b, j));
        assert(a[j].1 == b[j].1);
        if let Some(i) = named_field(fields, a, j) {
            let ea = exists|k: int| 0 <= k < j && named_field(fields, a, k) == Some(i);
            let eb = exists|k: int| 0 <= k < j && named_field(fields, b, k) == Some(i);
            if ea {
                let k = choose|k: int| 0 <= k < j && named_field(fields, a, k) == Some(i);
                assert(named_field(fields, b, k) == Some(i));
            }
            if eb {
                let k = choose|k: int| 0 <= k < j && named_field(fields, b, k) == Some(i);
                assert(named_field(fields, a, k) == Some(i));
            }
        }
    }
    lemma_pairs_error_same(fields, a, b, a.len() as int, p);
    assert forall|i: int| 0 <= i < fields.len() implies #[trigger] is_named(fields, a, i) == is_named(fields, b, i) by {
        if is_named(fields, a, i) {
            let j = choose|j: int| 0 <= j < a.len() && named_field(fields, a, j) == Some(i);
            assert(named_field(fields, b, j) == Some(i));
        }
        if is_named(fields, b, i) {
            let j = choose|j: int| 0 <= j < b.len() && named_field(fields, b, j) == Some(i);
            assert(named_field(fields, a, j) == Some(i));
        }
    }
    lemma_first_missing_same(fields, a, b, fields.len() as int);
    match r {
        Ok(vs) => {
            assert forall|i: int| 0 <= i < fields.len() implies fills(fields, a, i, #[trigger] vs@[i], p) == fills(fields, b, i, vs@[i], p) by {
                assert(is_named(fields, a, i) == is_named(fields, b, i));
                if fills(fields, a, i, vs@[i], p) {
                    assert forall|j: int| 0 <= j < b.len() && #[trigger] named_field(fields, b, j) == Some(i) implies decodes_to(
                        fields[i].kind,
                        b[j].1,
                        vs@[i], p,

                    ) by {
                        assert(named_field(fields, a, j) == Some(i));
                    }
                }
                if fills(fields, b, i, vs@[i], p) {
                    assert forall|j: int| 0 <= j < a.len() && #[trigger] named_field(fields, a, j) == Some(i) implies decodes_to(
                        fields[i].kind,
                        a[j].1,
                        vs@[i], p,

                    ) by {
                        assert(named_field(fields, b, j) == Some(i));
                    }
                }
            }
        },
        Err(_) => {},
    }
}

proof fn lemma_pairs_error_same(
    fields: Seq<Field>,
    a: Seq<(Seq<char>, Seq<char>)>,
    b: Seq<(Seq<char>, Seq<char>)>,
    n: int,
    p: spec_fn(char) -> bool,
)
    requires
        n <= a.len(),
        forall|j: int| 0 <= j < a.len() ==> #[trigger] pair_error(fields, a, j, p) == pair_error(fields, b, j, p),
    ensures
        pairs_error(fields, a, n, p) == pairs_error(fields, b, n, p),
    decreases n,
{
    if n > 0 {
        lemma_pairs_error_same(fields, a, b, n - 1, p);
        assert(pair_error(fields, a, n - 1, p) == pair_error(fields, b, n - 1, p));
    }
}

proof fn lemma_first_missing_same(
    fields: Seq<Field>,
    a: Seq<(Seq<char>, Seq<char>)>,
    b: Seq<(Seq<char>, Seq<char>)>,
    n: int,
)
    requires
        n <= fields.len(),
        forall|i: int| 0 <= i < fields.len() ==> #[trigger] is_named(fields, a, i) == is_named(fields, b, i),
    ensures
        first_missing(fields, a, n) == first_missing(fields, b, n),
    decreases n,
{
    if n > 0 {
        lemma_first_missing_same(fields, a, b, n - 1);
        assert(is_named(fields, a, n - 1) == is_named(fields, b, n - 1));
    }
}

/// An optional field that a pair fills is absent exactly when that pair's value is empty,
/// and present otherwise; one that no pair fills is absent.
pub proof fn lemma_optional_field(
    fields: Seq<Field>,
    pairs: Seq<(Seq<char>, Seq<char>)>,
    vs: Vec<Value>,
    i: int,
    p: spec_fn(char) -> bool,
)
    requires
        walked(fields, pairs, Ok(vs), p),
        0 <= i < fields.len(),
        fields[i].kind is Optional,
    ensures
        forall|j: int|
            0 <= j < pairs.len() && #[trigger] named_field(fields, pairs, j) == Some(i) ==> (vs@[i] == Value::Absent
                <==> pairs[j].1.len() == 0) && (pairs[j].1.len() > 0 ==> vs@[i] is Present),
        !is_named(fields, pairs, i) ==> vs@[i] == Value::Absent,
{
    assert(fills(fields, pairs, i, vs@[i], p));
}

/// A required field that no pair's lowercase key names makes the conversion fail; where no
/// pair fails and every earlier field is filled or optional, it fails with `MissingValue`
/// naming that field.
pub proof fn lemma_missing_field(
    fields: Seq<Field>,
    pairs: Seq<(Seq<char>, Seq<char>)>,
    i: int,
    r: Result<Vec<Value>, Error>,
    p: spec_fn(char) -> bool,
)
    requires
        walked(fields, pairs, r, p),
        0 <= i < fields.len(),
        !(fields[i].kind is Optional),
        forall|j: int| 0 <= j < pairs.len() ==> lower_of(#[trigger] pairs[j].0) != fields[i].name@,
    ensures
        r is Err,
        pairs_error(fields, pairs, pairs.len() as int, p) is None && (forall|k: int|
            0 <= k < i ==> !#[trigger] missing(fields, pairs, k)) ==> match r {
            Err(Error::MissingValue(name)) => name@ == fields[i].name@,
            _ => false,
        },
{
    assert(!is_named(fields, pairs, i)) by {
        if is_named(fields, pairs, i) {
            let j = choose|j: int| 0 <= j < pairs.len() && named_field(fields, pairs, j) == Some(i);
            let key = lower_of(pairs[j].0);
            assert(exists|c: int| field_at(fields, key, c));
            assert(field_at(fields, key, i));
            assert(lower_of(pairs[j].0) != fields[i].name@);
        }
    }
    assert(missing(fields, pairs, i));
    lemma_missing_found(fields, pairs, i, fields.len() as int);
}

proof fn lemma_missing_found(fields: Seq<Field>, pairs: Seq<(Seq<char>, Seq<char>)>, i: int, n: int)
    requires
        0 <= i < n <= fields.len(),
        missing(fields, pairs, i),
    ensures
        first_missing(fields, pairs, n) is Some,
        (forall|k: int| 0 <= k < i ==> !#[trigger] missing(fields, pairs, k)) ==> first_missing(fields, pairs, n) == Some(i),
    decreases n,
{
    if n - 1 > i {
        lemma_missing_found(fields, pairs, i, n - 1);
    } else {
        if forall|k: int| 0 <= k < i ==> !#[trigger] missing(fields, pairs, k) {
            lemma_no_missing_before(fields, pairs, i);
        }
    }
}

proof fn lemma_no_missing_before(fields: Seq<Field>, pairs: Seq<(Seq<char>, Seq<char>)>, n: int)
    requires
        0 <= n <= fields.len(),
        forall|k: int| 0 <= k < n ==> !#[trigger] missing(fields, pairs, k),
    ensures
        first_missing(fields, pairs, n) is None,
    decreases n,
{
    if n > 0 {
        lemma_no_missing_before(fields, pairs, n - 1);
    }
}

} // verus!
