//! Filtering pairs by a fixed prefix or postfix of their keys.
use vstd::prelude::*;
use vstd::string::*;

use crate::de::pair_views;
use crate::text::{
    ends_with, has_prefix, has_suffix, lower_of, lowercase, starts_with,
};

verus! {

/// The key as it is compared: in lowercase where `fold`.
pub open spec fn key_form(k: Seq<char>, fold: bool) -> Seq<char> {
    if fold {
        lower_of(k)
    } else {
        k
    }
}

/// The key carries the affix: at its end where `at_end`, else at its start.
pub open spec fn carries(k: Seq<char>, affix: Seq<char>, at_end: bool) -> bool {
    if at_end {
        has_suffix(k, affix)
    } else {
        has_prefix(k, affix)
    }
}

/// The key with the affix cut once from that end.
pub open spec fn stripped(k: Seq<char>, affix: Seq<char>, at_end: bool) -> Seq<char> {
    if at_end {
        k.take(k.len() - affix.len())
    } else {
        k.skip(affix.len() as int)
    }
}

/// The pairs whose key (in the compared form) carries `affix`, in order, each with the affix
/// cut from that key; the other pairs are left out.
pub open spec fn filtered(
    pairs: Seq<(Seq<char>, Seq<char>)>,
    affix: Seq<char>,
    at_end: bool,
    fold: bool,
) -> Seq<(Seq<char>, Seq<char>)>
    decreases pairs.len(),
{
    if pairs.len() == 0 {
        Seq::empty()
    } else {
        let rest = filtered(pairs.drop_last(), affix, at_end, fold);
        let k = key_form(pairs.last().0, fold);
        if carries(k, affix, at_end) {
            rest.push((stripped(k, affix, at_end), pairs.last().1))
        } else {
            rest
        }
    }
}

/// The affix as it is compared: in lowercase where `fold`.
pub fn affix_form(affix: &str, fold: bool) -> (r: String)
    ensures
        r@ == key_form(affix@, fold),
{
    if fold {
        lowercase(affix)
    } else {
        affix.to_owned()
    }
}

/// Keeps the pairs whose key carries the affix and cuts it from their keys.
pub fn filter_pairs(pairs: Vec<(String, String)>, affix: &str, at_end: bool, fold: bool) -> (r: Vec<(String, String)>)
    ensures
        pair_views(r@) == filtered(pair_views(pairs@), key_form(affix@, fold), at_end, fold),
{
    let a = affix_form(affix, fold);
    let ghost pv = pair_views(pairs@);
    let mut out: Vec<(String, String)> = Vec::new();
    for i in 0..pairs.len()
        invariant
            pv == pair_views(pairs@),
            a@ == key_form(affix@, fold),
            pair_views(out@) == filtered(pv.take(i as int), a@, at_end, fold),
    {
        assert(pv.take(i + 1).drop_last() =~= pv.take(i as int));
        assert(pv.take(i + 1).last() == pv[i as int]);
        let k = affix_form(pairs[i].0.as_str(), fold);
        let keep = if at_end {
            ends_with(k.as_str(), a.as_str())
        } else {
            starts_with(k.as_str(), a.as_str())
        };
        if keep {
            let n = k.as_str().unicode_len();
            let m = a.as_str().unicode_len();
            let cut = if at_end {
                k.as_str().substring_char(0, n - m).to_owned()
            } else {
                k.as_str().substring_char(m, n).to_owned()
            };
            assert(cut@ =~= stripped(k@, a@, at_end));
            let pair = (cut, pairs[i].1.clone());
            let ghost before = out@;
            out.push(pair);
            assert(pair_views(out@) =~= pair_views(before).push((pair.0@, pair.1@)));
        }
    }
    assert(pv.take(pairs@.len() as int) =~= pv);
    out
}

/// Filtering a concatenation filters each part.
pub proof fn lemma_filtered_concat(
    a: Seq<(Seq<char>, Seq<char>)>,
    b: Seq<(Seq<char>, Seq<char>)>,
    affix: Seq<char>,
    at_end: bool,
    fold: bool,
)
    ensures
        filtered(a + b, affix, at_end, fold) == filtered(a, affix, at_end, fold) + filtered(b, affix, at_end, fold),
    decreases b.len(),
{
    if b.len() == 0 {
        assert(a + b =~= a);
        assert(filtered(a, affix, at_end, fold) + filtered(b, affix, at_end, fold) =~= filtered(a, affix, at_end, fold));
    } else {
        assert((a + b).drop_last() =~= a + b.drop_last());
        assert((a + b).last() == b.last());
        lemma_filtered_concat(a, b.drop_last(), affix, at_end, fold);
        let fa = filtered(a, affix, at_end, fold);
        let fb = filtered(b.drop_last(), affix, at_end, fold);
        let k = key_form(b.last().0, fold);
        if carries(k, affix, at_end) {
            assert(fa + fb.push((stripped(k, affix, at_end), b.last().1)) =~= (fa + fb).push(
                (stripped(k, affix, at_end), b.last().1),
            ));
        }
    }
}

/// Pairs whose keys lack the affix are dropped wherever they stand: inserting any number of
/// them between other pairs leaves the filtered pairs unchanged.
pub proof fn lemma_filter_ignores_others(
    a: Seq<(Seq<char>, Seq<char>)>,
    others: Seq<(Seq<char>, Seq<char>)>,
    c: Seq<(Seq<char>, Seq<char>)>,
    affix: Seq<char>,
    at_end: bool,
    fold: bool,
)
    requires
        forall|i: int| 0 <= i < others.len() ==> !carries(key_form(#[trigger] others[i].0, fold), affix, at_end),
    ensures
        filtered(a + others + c, affix, at_end, fold) == filtered(a + c, affix, at_end, fold),
{
    lemma_filtered_none(others, affix, at_end, fold);
    lemma_filtered_concat(a + others, c, affix, at_end, fold);
    lemma_filtered_concat(a, others, affix, at_end, fold);
    lemma_filtered_concat(a, c, affix, at_end, fold);
    assert(filtered(a, affix, at_end, fold) + Seq::<(Seq<char>, Seq<char>)>::empty() =~= filtered(a, affix, at_end, fold));
}

/// Pairs whose keys all lack the affix filter to nothing.
pub proof fn lemma_filtered_none(pairs: Seq<(Seq<char>, Seq<char>)>, affix: Seq<char>, at_end: bool, fold: bool)
    requires
        forall|i: int| 0 <= i < pairs.len() ==> !carries(key_form(#[trigger] pairs[i].0, fold), affix, at_end),
    ensures
        filtered(pairs, affix, at_end, fold) == Seq::<(Seq<char>, Seq<char>)>::empty(),
    decreases pairs.len(),
{
    if pairs.len() > 0 {
        assert(pairs.last() == pairs[pairs.len() - 1]);
        assert forall|i: int| 0 <= i < pairs.drop_last().len() implies !carries(
            key_form(#[trigger] pairs.drop_last()[i].0, fold),
            affix,
            at_end,
        ) by {
            assert(pairs.drop_last()[i] == pairs[i]);
        }
        lemma_filtered_none(pairs.drop_last(), affix, at_end, fold);
    }
}

} // verus!
