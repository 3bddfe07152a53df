//! The shape that a conversion fills: fields, the kind of value each one wants, and the
//! values that come out.
use vstd::prelude::*;

use crate::error::Error;
use crate::parse::{
    bool_parse_error, decimal_in, decimal_of, i16_parse_error, i32_parse_error, i64_parse_error,
    i8_parse_error, u16_parse_error, u32_parse_error, u64_parse_error, u8_parse_error,
};
use crate::sanitize::trim_by;
use crate::text::split_on;

verus! {

/// The kind of value that a field wants.
#[derive(Debug, PartialEq, Eq)]
pub enum Kind {
    Bool,
    U8,
    U16,
    U32,
    U64,
    I8,
    I16,
    I32,
    I64,
    /// The text as it is.
    Str,
    /// Comma-separated items, each of the inner kind.
    Sequence(Box<Kind>),
    /// Absent when the text is empty, else a value of the inner kind.
    Optional(Box<Kind>),
    /// One of the named unit variants, matched case-sensitively.
    Enumeration(&'static [&'static str]),
    /// A unit struct: the text must be its name.
    UnitStruct(&'static str),
    /// A unit value: any text.
    Unit,
    /// A single-field wrapper around a value of the inner kind.
    Newtype(Box<Kind>),
}

/// A named field of a shape.
#[derive(Debug, PartialEq, Eq)]
pub struct Field {
    pub name: &'static str,
    pub kind: Kind,
}

impl Field {
    /// A field with the given name and kind.
    pub fn new(name: &'static str, kind: Kind) -> (r: Field)
        ensures
            r.name == name,
            r.kind == kind,
    {
        Field { name, kind }
    }
}

/// A converted value.
#[derive(Debug, PartialEq, Eq)]
pub enum Value {
    Bool(bool),
    U8(u8),
    U16(u16),
    U32(u32),
    U64(u64),
    I8(i8),
    I16(i16),
    I32(i32),
    I64(i64),
    Str(String),
    Sequence(Vec<Value>),
    Absent,
    Present(Box<Value>),
    /// The position of the matched variant among the declared ones.
    Variant(usize),
    Unit,
    Newtype(Box<Value>),
}

/// The items of a value read as a sequence under the trim predicate `p`: none when it is
/// empty or all trim characters, else its comma-separated pieces, each trimmed by `p`.
pub open spec fn sequence_items(text: Seq<char>, p: spec_fn(char) -> bool) -> Seq<Seq<char>> {
    if forall|i: int| 0 <= i < text.len() ==> p(#[trigger] text[i]) {
        Seq::empty()
    } else {
        split_on(text, ',').map_values(|x: Seq<char>| trim_by(x, p))
    }
}

/// The message of a failed parse of `text`.
pub open spec fn parse_failure(err: Seq<char>, text: Seq<char>) -> Seq<char> {
    err + " while parsing value '"@ + text + "'"@
}

/// The message of a unit struct whose name does not match.
pub open spec fn unit_mismatch(name: Seq<char>, found: Seq<char>) -> Seq<char> {
    "expected unit struct with name '"@ + name + "', found '"@ + found + "'"@
}

/// A name between backticks.
pub open spec fn ticked(s: Seq<char>) -> Seq<char> {
    "`"@ + s + "`"@
}

/// Names between backticks, separated by commas.
pub open spec fn ticked_list(names: Seq<Seq<char>>) -> Seq<char>
    decreases names.len(),
{
    if names.len() == 0 {
        Seq::empty()
    } else if names.len() == 1 {
        ticked(names[0])
    } else {
        ticked_list(names.drop_last()) + ", "@ + ticked(names.last())
    }
}

/// The message that serde gives for a variant that is not among `names`.
pub open spec fn unknown_variant_text(variant: Seq<char>, names: Seq<Seq<char>>) -> Seq<char> {
    if names.len() == 0 {
        "unknown variant `"@ + variant + "`, there are no variants"@
    } else if names.len() == 1 {
        "unknown variant `"@ + variant + "`, expected "@ + ticked(names[0])
    } else if names.len() == 2 {
        "unknown variant `"@ + variant + "`, expected "@ + ticked(names[0]) + " or "@ + ticked(names[1])
    } else {
        "unknown variant `"@ + variant + "`, expected one of "@ + ticked_list(names)
    }
}

/// The message that serde gives for a field that comes twice.
pub open spec fn duplicate_field_text(name: Seq<char>) -> Seq<char> {
    "duplicate field `"@ + name + "`"@
}

/// The characters of each name.
pub open spec fn name_views(names: Seq<&str>) -> Seq<Seq<char>> {
    names.map_values(|n: &str| n@)
}

/// `i` is the first variant named `text`.
pub open spec fn variant_at(names: Seq<&str>, text: Seq<char>, i: int) -> bool {
    &&& 0 <= i < names.len()
    &&& names[i]@ == text
    &&& forall|j: int| 0 <= j < i ==> names[j]@ != text
}

/// Why the first item that fails does not convert to `kind`, or `None` when all convert.
pub open spec fn items_error(kind: Kind, items: Seq<Seq<char>>, p: spec_fn(char) -> bool) -> Option<Seq<char>>
    decreases kind, items.len(),
{
    if items.len() == 0 {
        None
    } else {
        match decode_error(kind, items[0], p) {
            Some(m) => Some(m),
            None => items_error(kind, items.drop_first(), p),
        }
    }
}

/// Why `text` does not convert to `kind`, or `None` when it does; sequence items are
/// trimmed by `p`.
pub open spec fn decode_error(kind: Kind, text: Seq<char>, p: spec_fn(char) -> bool) -> Option<Seq<char>>
    decreases kind, 0nat,
{
    match kind {
        Kind::Bool => if text == "true"@ || text == "false"@ {
            None
        } else {
            Some(parse_failure(bool_parse_error(text), text))
        },
        Kind::U8 => if decimal_in(text, false, 0, u8::MAX as int) {
            None
        } else {
            Some(parse_failure(u8_parse_error(text), text))
        },
        Kind::U16 => if decimal_in(text, false, 0, u16::MAX as int) {
            None
        } else {
            Some(parse_failure(u16_parse_error(text), text))
        },
        Kind::U32 => if decimal_in(text, false, 0, u32::MAX as int) {
            None
        } else {
            Some(parse_failure(u32_parse_error(text), text))
        },
        Kind::U64 => if decimal_in(text, false, 0, u64::MAX as int) {
            None
        } else {
            Some(parse_failure(u64_parse_error(text), text))
        },
        Kind::I8 => if decimal_in(text, true, i8::MIN as int, i8::MAX as int) {
            None
        } else {
            Some(parse_failure(i8_parse_error(text), text))
        },
        Kind::I16 => if decimal_in(text, true, i16::MIN as int, i16::MAX as int) {
            None
        } else {
            Some(parse_failure(i16_parse_error(text), text))
        },
        Kind::I32 => if decimal_in(text, true, i32::MIN as int, i32::MAX as int) {
            None
        } else {
            Some(parse_failure(i32_parse_error(text), text))
        },
        Kind::I64 => if decimal_in(text, true, i64::MIN as int, i64::MAX as int) {
            None
        } else {
            Some(parse_failure(i64_parse_error(text), text))
        },
        Kind::Str => None,
        Kind::Sequence(k) => items_error(*k, sequence_items(text, p), p),
        Kind::Optional(k) => if text.len() == 0 {
            None
        } else {
            decode_error(*k, text, p)
        },
        Kind::Enumeration(names) => if exists|i: int| variant_at(names@, text, i) {
            None
        } else {
            Some(unknown_variant_text(text, name_views(names@)))
        },
        Kind::UnitStruct(name) => if text == name@ {
            None
        } else {
            Some(unit_mismatch(name@, text))
        },
        Kind::Unit => None,
        Kind::Newtype(k) => decode_error(*k, text, p),
    }
}

/// `v` is what `text` converts to as `kind`, where it converts; sequence items are trimmed
/// by `p`.
pub open spec fn decodes_to(kind: Kind, text: Seq<char>, v: Value, p: spec_fn(char) -> bool) -> bool
    decreases kind,
{
    match kind {
        Kind::Bool => v == Value::Bool(text == "true"@),
        Kind::U8 => match v {
            Value::U8(n) => decimal_of(text, false) == Some(n as int),
            _ => false,
        },
        Kind::U16 => match v {
            Value::U16(n) => decimal_of(text, false) == Some(n as int),
            _ => false,
        },
        Kind::U32 => match v {
            Value::U32(n) => decimal_of(text, false) == Some(n as int),
            _ => false,
        },
        Kind::U64 => match v {
            Value::U64(n) => decimal_of(text, false) == Some(n as int),
            _ => false,
        },
        Kind::I8 => match v {
            Value::I8(n) => decimal_of(text, true) == Some(n as int),
            _ => false,
        },
        Kind::I16 => match v {
            Value::I16(n) => decimal_of(text, true) == Some(n as int),
            _ => false,
        },
        Kind::I32 => match v {
            Value::I32(n) => decimal_of(text, true) == Some(n as int),
            _ => false,
        },
        Kind::I64 => match v {
            Value::I64(n) => decimal_of(text, true) == Some(n as int),
            _ => false,
        },
        Kind::Str => match v {
            Value::Str(s) => s@ == text,
            _ => false,
        },
        Kind::Sequence(k) => match v {
            Value::Sequence(vs) => {
                let items = sequence_items(text, p);
                &&& vs@.len() == items.len()
                &&& forall|i: int| 0 <= i < items.len() ==> decodes_to(*k, items[i], #[trigger] vs@[i], p)
            },
            _ => false,
        },
        Kind::Optional(k) => if text.len() == 0 {
            v == Value::Absent
        } else {
            match v {
                Value::Present(b) => decodes_to(*k, text, *b, p),
                _ => false,
            }
        },
        Kind::Enumeration(names) => match v {
            Value::Variant(i) => variant_at(names@, text, i as int),
            _ => false,
        },
        Kind::UnitStruct(_) => v == Value::Unit,
        Kind::Unit => v == Value::Unit,
        Kind::Newtype(k) => match v {
            Value::Newtype(b) => decodes_to(*k, text, *b, p),
            _ => false,
        },
    }
}

/// `r` is the outcome of converting `text` to `kind`, with sequence items trimmed by `p`:
/// the value where it converts, else a `Custom` error with the reason.
pub open spec fn converted(kind: Kind, text: Seq<char>, r: Result<Value, Error>, p: spec_fn(char) -> bool) -> bool {
    match r {
        Ok(v) => decode_error(kind, text, p) is None && decodes_to(kind, text, v, p),
        Err(Error::Custom(m)) => decode_error(kind, text, p) == Some(m@),
        Err(_) => false,
    }
}

/// An optional value is absent exactly when its text is empty; any other text gives a present
/// value, converted from that same text.
pub proof fn lemma_option_emptiness(k: Kind, text: Seq<char>, v: Value, p: spec_fn(char) -> bool)
    requires
        converted(Kind::Optional(Box::new(k)), text, Ok(v), p),
    ensures
        text.len() == 0 <==> v == Value::Absent,
        text.len() > 0 ==> match v {
            Value::Present(inner) => decodes_to(k, text, *inner, p),
            _ => false,
        },
{
}

/// A numeric newtype whose text is not a decimal that fits fails with a `Custom` message that
/// holds the parse error and the text itself.
pub proof fn lemma_unparsable_newtype(text: Seq<char>, p: spec_fn(char) -> bool)
    requires
        !decimal_in(text, false, 0, u64::MAX as int),
    ensures
        decode_error(Kind::Newtype(Box::new(Kind::U64)), text, p) == Some(parse_failure(u64_parse_error(text), text)),
        parse_failure(u64_parse_error(text), text).subrange(
            (u64_parse_error(text).len() + " while parsing value '"@.len()) as int,
            (u64_parse_error(text).len() + " while parsing value '"@.len() + text.len()) as int,
        ) == text,
{
    assert(decode_error(Kind::U64, text, p) == Some(parse_failure(u64_parse_error(text), text)));
    let e = u64_parse_error(text);
    let m = " while parsing value '"@;
    assert((e + m + text + "'"@).subrange((e.len() + m.len()) as int, (e.len() + m.len() + text.len()) as int) =~= text);
}

} // verus!
