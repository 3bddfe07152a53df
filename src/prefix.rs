//! Filters that keep the pairs whose key starts with a fixed prefix.
use vstd::prelude::*;

use crate::affix::{filter_pairs, filtered, key_form};
use crate::convert::{
    decoded_pairs, first_invalid, from_iter, maybe_invalid_unicode_vars_os, raw_views,
    trimmed_pairs,
};
use crate::de::{pair_views, walked};
use crate::error::Error;
use crate::sanitize::quote_or_space;
use crate::shape::{Field, Value};

verus! {

/// Keeps the pairs whose key starts with the prefix, compared case-sensitively, and cuts it
/// from their keys.
#[derive(Debug)]
pub struct Prefixed<'a>(&'a str);

impl<'a> Prefixed<'a> {
    /// The configured prefix.
    pub closed spec fn affix(&self) -> Seq<char> {
        self.0@
    }

    /// The configured prefix.
    pub fn prefix(&self) -> (r: &str)
        ensures
            r@ == self.affix(),
    {
        self.0
    }

    /// The pairs that this filter keeps, with the prefix cut from their keys.
    pub fn filter(&self, pairs: Vec<(String, String)>) -> (r: Vec<(String, String)>)
        ensures
            pair_views(r@) == filtered(pair_views(pairs@), key_form(self.affix(), false), false, false),
    {
        filter_pairs(pairs, self.0, false, false)
    }

    /// Fills `fields` from the pairs that this filter keeps, trimmed as by `from_iter`.
    pub fn from_iter(&self, pairs: Vec<(String, String)>, fields: &[Field]) -> (r: Result<Vec<Value>, Error>)
        ensures
            walked(
                fields@,
                trimmed_pairs(filtered(pair_views(pairs@), key_form(self.affix(), false), false, false)),
                r,
                quote_or_space(),
            ),
    {
        from_iter(self.filter(pairs), fields)
    }

    /// Fills `fields` from a snapshot of the environment's variables, taken as text.
    pub fn from_env(&self, vars: Vec<(String, String)>, fields: &[Field]) -> (r: Result<Vec<Value>, Error>)
        ensures
            walked(
                fields@,
                trimmed_pairs(filtered(pair_views(vars@), key_form(self.affix(), false), false, false)),
                r,
                quote_or_space(),
            ),
    {
        self.from_iter(vars, fields)
    }

    /// Fills `fields` from a raw snapshot of the environment's variables: the first key or
    /// value that is not valid UTF-8 fails the whole call.
    pub fn from_os_env(&self, vars: Vec<(Vec<u8>, Vec<u8>)>, fields: &[Field]) -> (r: Result<Vec<Value>, Error>)
        ensures
            match first_invalid(raw_views(vars@)) {
                Some(raw) => match r {
                    Err(Error::InvalidUnicode(b)) => b@ == raw,
                    _ => false,
                },
                None => walked(
                    fields@,
                    trimmed_pairs(filtered(decoded_pairs(raw_views(vars@)), key_form(self.affix(), false), false, false)),
                    r,
                    quote_or_space(),
                ),
            },
    {
        match maybe_invalid_unicode_vars_os(vars) {
            Ok(pairs) => self.from_iter(pairs, fields),
            Err(e) => Err(e),
        }
    }
}

/// A filter on the prefix `prefix`.
pub fn prefixed(prefix: &str) -> (r: Prefixed<'_>)
    ensures
        r.affix() == prefix@,
{
    Prefixed(prefix)
}

/// Keeps the pairs whose key starts with the prefix, both in lowercase, and cuts it from
/// their lowercase keys.
#[derive(Debug)]
pub struct CaseInsensitivePrefixed<'a>(&'a str);

impl<'a> CaseInsensitivePrefixed<'a> {
    /// The configured prefix.
    pub closed spec fn affix(&self) -> Seq<char> {
        self.0@
    }

    /// The configured prefix.
    pub fn prefix(&self) -> (r: &str)
        ensures
            r@ == self.affix(),
    {
        self.0
    }

    /// The pairs that this filter keeps, with the prefix cut from their keys.
    pub fn filter(&self, pairs: Vec<(String, String)>) -> (r: Vec<(String, String)>)
        ensures
            pair_views(r@) == filtered(pair_views(pairs@), key_form(self.affix(), true), false, true),
    {
        filter_pairs(pairs, self.0, false, true)
    }

    /// Fills `fields` from the pairs that this filter keeps, trimmed as by `from_iter`.
    pub fn from_iter(&self, pairs: Vec<(String, String)>, fields: &[Field]) -> (r: Result<Vec<Value>, Error>)
        ensures
            walked(
                fields@,
                trimmed_pairs(filtered(pair_views(pairs@), key_form(self.affix(), true), false, true)),
                r,
                quote_or_space(),
            ),
    {
        from_iter(self.filter(pairs), fields)
    }

    /// Fills `fields` from a snapshot of the environment's variables, taken as text.
    pub fn from_env(&self, vars: Vec<(String, String)>, fields: &[Field]) -> (r: Result<Vec<Value>, Error>)
        ensures
            walked(
                fields@,
                trimmed_pairs(filtered(pair_views(vars@), key_form(self.affix(), true), false, true)),
                r,
                quote_or_space(),
            ),
    {
        self.from_iter(vars, fields)
    }

    /// Fills `fields` from a raw snapshot of the environment's variables: the first key or
    /// value that is not valid UTF-8 fails the whole call.
    pub fn from_os_env(&self, vars: Vec<(Vec<u8>, Vec<u8>)>, fields: &[Field]) -> (r: Result<Vec<Value>, Error>)
        ensures
            match first_invalid(raw_views(vars@)) {
                Some(raw) => match r {
                    Err(Error::InvalidUnicode(b)) => b@ == raw,
                    _ => false,
                },
                None => walked(
                    fields@,
                    trimmed_pairs(filtered(decoded_pairs(raw_views(vars@)), key_form(self.affix(), true), false, true)),
                    r,
                    quote_or_space(),
                ),
            },
    {
        match maybe_invalid_unicode_vars_os(vars) {
            Ok(pairs) => self.from_iter(pairs, fields),
            Err(e) => Err(e),
        }
    }
}

/// A filter on the prefix `prefix`.
pub fn case_insensitive_prefixed(prefix: &str) -> (r: CaseInsensitivePrefixed<'_>)
    ensures
        r.affix() == prefix@,
{
    CaseInsensitivePrefixed(prefix)
}

} // verus!
