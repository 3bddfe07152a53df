//! The characters that are stripped from both ends of keys and values.
use vstd::prelude::*;
use vstd::string::*;

verus! {

/// The default trim predicate: a double quote, a single quote or a space.
pub open spec fn is_trim_char(c: char) -> bool {
    c == '"' || c == '\'' || c == ' '
}

/// Determines whether the input `char` is a single quote, a double quote or a space.
pub fn is_quote_or_whitespace(c: char) -> (r: bool)
    ensures
        r == is_trim_char(c),
{
    c == '"' || c == '\'' || c == ' '
}

/// The characters of a string, in order.
pub fn chars_of(s: &str) -> (r: Vec<char>)
    ensures
        r@ == s@,
{
    let mut out: Vec<char> = Vec::new();
    for c in it: s.chars()
        invariant
            out@ == it.seq().take(it.index() as int),
    {
        out.push(c);
    }
    out
}

/// `t` is `s` with a run cut from each end: `f` may answer `true` for every character cut,
/// and `false` for the characters at both ends of what is kept.
pub open spec fn trimmed_with<F: Fn(char) -> bool>(f: F, s: Seq<char>, t: Seq<char>) -> bool {
    exists|a: int, b: int| #[trigger] trim_bounds(f, s, a, b) && t == s.subrange(a, b)
}

/// Cutting `s` to `s[a..b]` is a trim under `f`.
pub open spec fn trim_bounds<F: Fn(char) -> bool>(f: F, s: Seq<char>, a: int, b: int) -> bool {
    &&& 0 <= a <= b <= s.len()
    &&& forall|i: int| 0 <= i < a ==> #[trigger] f.ensures((s[i],), true)
    &&& forall|i: int| b <= i < s.len() ==> #[trigger] f.ensures((s[i],), true)
    &&& a < b ==> f.ensures((s[a],), false) && f.ensures((s[b - 1],), false)
}

/// Every answer that `f` gives for a character is what `p` says of it.
pub open spec fn agrees<F: Fn(char) -> bool>(f: F, p: spec_fn(char) -> bool) -> bool {
    forall|c: char, b: bool| #[trigger] f.ensures((c,), b) ==> b == p(c)
}

/// The default trim predicate as a spec closure.
pub open spec fn quote_or_space() -> spec_fn(char) -> bool {
    |c: char| is_trim_char(c)
}

/// The default trimmer answers as the default predicate.
pub proof fn lemma_default_agrees()
    ensures
        agrees(is_quote_or_whitespace, quote_or_space()),
{
}

/// `s` without the characters satisfying `p` at its start.
pub open spec fn trim_start_by(s: Seq<char>, p: spec_fn(char) -> bool) -> Seq<char>
    decreases s.len(),
{
    if s.len() > 0 && p(s[0]) {
        trim_start_by(s.drop_first(), p)
    } else {
        s
    }
}

/// `s` without the characters satisfying `p` at its end.
pub open spec fn trim_end_by(s: Seq<char>, p: spec_fn(char) -> bool) -> Seq<char>
    decreases s.len(),
{
    if s.len() > 0 && p(s.last()) {
        trim_end_by(s.drop_last(), p)
    } else {
        s
    }
}

/// `s` without the characters satisfying `p` at either end.
pub open spec fn trim_by(s: Seq<char>, p: spec_fn(char) -> bool) -> Seq<char> {
    trim_end_by(trim_start_by(s, p), p)
}

/// `s` trimmed with the default predicate.
pub open spec fn trimmed(s: Seq<char>) -> Seq<char> {
    trim_by(s, quote_or_space())
}

/// Strips the characters for which `trimmer` says `true` from both ends of `s`.
pub fn trim_with<F: Fn(char) -> bool>(s: &str, trimmer: &F) -> (r: String)
    requires
        forall|c: char| #[trigger] trimmer.requires((c,)),
    ensures
        trimmed_with(*trimmer, s@, r@),
{
    let cs = chars_of(s);
    let n = cs.len();
    let mut start: usize = 0;
    while start < n
        invariant
            cs@ == s@,
            n == cs@.len(),
            start <= n,
            forall|c: char| #[trigger] trimmer.requires((c,)),
            forall|i: int| 0 <= i < start ==> #[trigger] trimmer.ensures((s@[i],), true),
        ensures
            start <= n,
            forall|i: int| 0 <= i < start ==> #[trigger] trimmer.ensures((s@[i],), true),
            start < n ==> trimmer.ensures((s@[start as int],), false),
        decreases n - start,
    {
        let strip = trimmer(cs[start]);
        if !strip {
            break;
        }
        start = start + 1;
    }
    let mut end: usize = n;
    while end > start
        invariant
            cs@ == s@,
            n == cs@.len(),
            start <= end <= n,
            forall|c: char| #[trigger] trimmer.requires((c,)),
            forall|i: int| end <= i < n ==> #[trigger] trimmer.ensures((s@[i],), true),
        ensures
            start <= end <= n,
            forall|i: int| end <= i < n ==> #[trigger] trimmer.ensures((s@[i],), true),
            end > start ==> trimmer.ensures((s@[end - 1],), false),
        decreases end - start,
    {
        let strip = trimmer(cs[end - 1]);
        if !strip {
            break;
        }
        end = end - 1;
    }
    let r = s.substring_char(start, end).to_owned();
    assert(trim_bounds(*trimmer, s@, start as int, end as int));
    r
}

/// A trim under a trimmer that agrees with `p` is the trim by `p`.
pub proof fn lemma_trimmed_with_agrees<F: Fn(char) -> bool>(f: F, p: spec_fn(char) -> bool, s: Seq<char>, t: Seq<char>)
    requires
        trimmed_with(f, s, t),
        agrees(f, p),
    ensures
        t == trim_by(s, p),
{
    let (a, b) = choose|a: int, b: int| #[trigger] trim_bounds(f, s, a, b) && t == s.subrange(a, b);
    if a == b {
        assert forall|i: int| 0 <= i < s.len() implies p(#[trigger] s[i]) by {
            assert(f.ensures((s[i],), true));
        }
        lemma_trim_start_at(s, p, s.len() as int);
        assert(t =~= Seq::<char>::empty());
    } else {
        assert(f.ensures((s[a],), false));
        assert(f.ensures((s[b - 1],), false));
        assert forall|i: int| 0 <= i < a implies p(#[trigger] s[i]) by {
            assert(f.ensures((s[i],), true));
        }
        lemma_trim_start_at(s, p, a);
        let u = s.subrange(a, s.len() as int);
        assert forall|i: int| b - a <= i < u.len() implies p(#[trigger] u[i]) by {
            assert(u[i] == s[i + a]);
            assert(f.ensures((s[i + a],), true));
        }
        lemma_trim_end_at(u, p, b - a);
        assert(u.subrange(0, b - a) =~= s.subrange(a, b));
    }
}

/// Strips double quotes, single quotes and spaces from both ends of `s`.
pub fn trim_quotes(s: &str) -> (r: String)
    ensures
        r@ == trimmed(s@),
{
    let r = trim_with(s, &is_quote_or_whitespace);
    proof {
        lemma_trimmed_with_agrees(is_quote_or_whitespace, quote_or_space(), s@, r@);
    }
    r
}

/// Trimming the start stops at the first character that `p` keeps.
pub proof fn lemma_trim_start_at(s: Seq<char>, p: spec_fn(char) -> bool, a: int)
    requires
        0 <= a <= s.len(),
        forall|i: int| 0 <= i < a ==> p(#[trigger] s[i]),
        a < s.len() ==> !p(s[a]),
    ensures
        trim_start_by(s, p) == s.subrange(a, s.len() as int),
    decreases a,
{
    if a == 0 {
        assert(s.subrange(0, s.len() as int) =~= s);
    } else {
        assert(p(s[0]));
        let t = s.drop_first();
        assert forall|i: int| 0 <= i < a - 1 implies p(#[trigger] t[i]) by {
            assert(t[i] == s[i + 1]);
        }
        lemma_trim_start_at(t, p, a - 1);
        assert(t.subrange(a - 1, t.len() as int) =~= s.subrange(a, s.len() as int));
    }
}

/// Trimming the end stops at the last character that `p` keeps.
pub proof fn lemma_trim_end_at(s: Seq<char>, p: spec_fn(char) -> bool, b: int)
    requires
        0 <= b <= s.len(),
        forall|i: int| b <= i < s.len() ==> p(#[trigger] s[i]),
        b > 0 ==> !p(s[b - 1]),
    ensures
        trim_end_by(s, p) == s.subrange(0, b),
    decreases s.len() - b,
{
    if b == s.len() {
        assert(s.subrange(0, b) =~= s);
    } else {
        assert(p(s.last()));
        let t = s.drop_last();
        assert forall|i: int| b <= i < t.len() implies p(#[trigger] t[i]) by {
            assert(t[i] == s[i]);
        }
        lemma_trim_end_at(t, p, b);
        assert(t.subrange(0, b) =~= s.subrange(0, b));
    }
}

/// Stripping the start of `s + t` where `s` keeps a character ends inside `s`.
pub proof fn lemma_trim_start_append(s: Seq<char>, t: Seq<char>, p: spec_fn(char) -> bool)
    requires
        exists|i: int| 0 <= i < s.len() && !p(#[trigger] s[i]),
    ensures
        trim_start_by(s + t, p) == trim_start_by(s, p) + t,
    decreases s.len(),
{
    if p(s[0]) {
        let i = choose|i: int| 0 <= i < s.len() && !p(#[trigger] s[i]);
        assert(i > 0);
        assert(!p(s.drop_first()[i - 1]));
        assert((s + t).drop_first() =~= s.drop_first() + t);
        lemma_trim_start_append(s.drop_first(), t, p);
    } else {
        assert((s + t)[0] == s[0]);
    }
}

/// Stripping the start of `s + t` where `p` holds of all of `s` strips `s` away.
pub proof fn lemma_trim_start_skip(s: Seq<char>, t: Seq<char>, p: spec_fn(char) -> bool)
    requires
        forall|i: int| 0 <= i < s.len() ==> p(#[trigger] s[i]),
    ensures
        trim_start_by(s + t, p) == trim_start_by(t, p),
    decreases s.len(),
{
    if s.len() == 0 {
        assert(s + t =~= t);
    } else {
        assert((s + t)[0] == s[0]);
        assert((s + t).drop_first() =~= s.drop_first() + t);
        assert forall|i: int| 0 <= i < s.drop_first().len() implies p(#[trigger] s.drop_first()[i]) by {
            assert(s.drop_first()[i] == s[i + 1]);
        }
        lemma_trim_start_skip(s.drop_first(), t, p);
    }
}

/// A value wrapped in a matching pair of double or single quotes trims to what the bare
/// value trims to.
pub proof fn lemma_quoting_round_trip(s: Seq<char>, q: char)
    requires
        q == '"' || q == '\'',
    ensures
        trimmed(seq![q] + s + seq![q]) == trimmed(s),
{
    let p = quote_or_space();
    let w = seq![q] + s + seq![q];
    assert(w[0] == q);
    assert(w.drop_first() =~= s + seq![q]);
    assert(trim_start_by(w, p) == trim_start_by(s + seq![q], p));
    if exists|i: int| 0 <= i < s.len() && !p(#[trigger] s[i]) {
        lemma_trim_start_append(s, seq![q], p);
        let t = trim_start_by(s, p);
        assert((t + seq![q]).last() == q);
        assert((t + seq![q]).drop_last() =~= t);
    } else {
        lemma_trim_start_skip(s, seq![q], p);
        lemma_trim_start_skip(s, Seq::empty(), p);
        assert(s + Seq::<char>::empty() =~= s);
        assert(seq![q].drop_first() =~= Seq::<char>::empty());
    }
}

/// What stripping the start leaves is empty or begins with a kept character.
pub proof fn lemma_trim_start_shape(s: Seq<char>, p: spec_fn(char) -> bool)
    ensures
        trim_start_by(s, p).len() == 0 || !p(trim_start_by(s, p)[0]),
    decreases s.len(),
{
    if s.len() > 0 && p(s[0]) {
        lemma_trim_start_shape(s.drop_first(), p);
    }
}

/// Stripping the end leaves a prefix that is empty or ends with a kept character.
pub proof fn lemma_trim_end_shape(s: Seq<char>, p: spec_fn(char) -> bool)
    ensures
        trim_end_by(s, p).len() <= s.len(),
        trim_end_by(s, p) == s.take(trim_end_by(s, p).len() as int),
        trim_end_by(s, p).len() == 0 || !p(trim_end_by(s, p).last()),
    decreases s.len(),
{
    if s.len() > 0 && p(s.last()) {
        lemma_trim_end_shape(s.drop_last(), p);
        let t = trim_end_by(s.drop_last(), p);
        assert(s.drop_last().take(t.len() as int) =~= s.take(t.len() as int));
    } else {
        assert(s.take(s.len() as int) =~= s);
    }
}

/// Trimming is idempotent: a trimmed value trims to itself.
pub proof fn lemma_trim_idempotent(s: Seq<char>)
    ensures
        trimmed(trimmed(s)) == trimmed(s),
{
    let p = quote_or_space();
    let a = trim_start_by(s, p);
    let t = trim_end_by(a, p);
    lemma_trim_start_shape(s, p);
    lemma_trim_end_shape(a, p);
    if t.len() > 0 {
        assert(t[0] == a[0]);
        lemma_trim_start_at(t, p, 0);
        lemma_trim_end_at(t, p, t.len() as int);
        assert(t.subrange(0, t.len() as int) =~= t);
    }
}

} // verus!
