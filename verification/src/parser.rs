//! The query-string grammar and its parser.
//!
//! A query string is consumed left to right. Each step takes the
//! remainder (the unconsumed suffix) and yields a new remainder together
//! with the extracted token, mirroring the grammar:
//!
//! * a key: an optional leading `?` or `&`, then the longest prefix
//!   containing no `=`;
//! * a value: an optional leading `=`, then the longest prefix containing
//!   no `&`;
//! * a pair: a key, a required literal `=`, a value;
//! * the whole input: pairs, repeated until none can be extracted.

use vstd::prelude::*;
use vstd::string::StrSliceExecFns;

use crate::params::ParamMap;

verus! {

/// The number of characters before the first occurrence of `c` in `s`
/// (the length of `s` when `c` does not occur).
pub open spec fn count_until(s: Seq<char>, c: char) -> nat
    decreases s.len(),
{
    if s.len() == 0 || s[0] == c {
        0
    } else {
        (count_until(s.drop_first(), c) + 1) as nat
    }
}

/// The longest prefix of `s` containing no `c`.
pub open spec fn take_until(s: Seq<char>, c: char) -> Seq<char> {
    s.take(count_until(s, c) as int)
}

/// What remains of `s` after [`take_until`] (starting at the first `c`,
/// or empty).
pub open spec fn skip_until(s: Seq<char>, c: char) -> Seq<char> {
    s.skip(count_until(s, c) as int)
}

/// `s` with one leading `?` or `&` removed, if present.
pub open spec fn strip_query_delim(s: Seq<char>) -> Seq<char> {
    if s.len() > 0 && (s[0] == '&' || s[0] == '?') {
        s.drop_first()
    } else {
        s
    }
}

/// `s` with one leading `=` removed, if present.
pub open spec fn strip_eq_delim(s: Seq<char>) -> Seq<char> {
    if s.len() > 0 && s[0] == '=' {
        s.drop_first()
    } else {
        s
    }
}

/// The key tokenizer: (new remainder, key).
pub open spec fn spec_parse_key(s: Seq<char>) -> (Seq<char>, Seq<char>) {
    let t = strip_query_delim(s);
    (skip_until(t, '='), take_until(t, '='))
}

/// The value tokenizer: (new remainder, value).
pub open spec fn spec_parse_value(s: Seq<char>) -> (Seq<char>, Seq<char>) {
    let t = strip_eq_delim(s);
    (skip_until(t, '&'), take_until(t, '&'))
}

/// The pair combiner: a key, a required literal `=`, a value. `None`
/// exactly when no `=` follows the key.
pub open spec fn spec_parse_one(s: Seq<char>) -> Option<(Seq<char>, (Seq<char>, Seq<char>))> {
    let (r1, key) = spec_parse_key(s);
    if r1.len() > 0 && r1[0] == '=' {
        let (r2, value) = spec_parse_value(r1.drop_first());
        Some((r2, (key, value)))
    } else {
        None
    }
}

/// [`count_until`] never runs past the end of the sequence.
pub proof fn lemma_count_until_le(s: Seq<char>, c: char)
    ensures
        count_until(s, c) <= s.len(),
    decreases s.len(),
{
    if s.len() > 0 && s[0] != c {
        lemma_count_until_le(s.drop_first(), c);
    }
}

/// [`count_until`] is the unique cut: everything before it differs from
/// `c`, and it stops at the end or on a `c`.
pub proof fn lemma_count_until_is(s: Seq<char>, c: char, i: int)
    requires
        0 <= i <= s.len(),
        forall|j: int| 0 <= j < i ==> s[j] != c,
        i < s.len() ==> s[i] == c,
    ensures
        count_until(s, c) == i,
    decreases s.len(),
{
    if i > 0 {
        let t = s.drop_first();
        assert forall|j: int| 0 <= j < i - 1 implies t[j] != c by {
            assert(t[j] == s[j + 1]);
        }
        lemma_count_until_is(t, c, i - 1);
    }
}

/// A successfully extracted pair consumes at least the literal `=`: the
/// remainder is strictly shorter than the input.
pub proof fn lemma_parse_one_shrinks(s: Seq<char>)
    requires
        spec_parse_one(s) is Some,
    ensures
        spec_parse_one(s)->Some_0.0.len() < s.len(),
{
    let t = strip_query_delim(s);
    lemma_count_until_le(t, '=');
    let r1 = skip_until(t, '=');
    let u = strip_eq_delim(r1.drop_first());
    lemma_count_until_le(u, '&');
}

/// Whether a character may stand inside a key.
pub fn is_not_equals(data: char) -> (r: bool)
    ensures
        r == (data != '='),
{
    data != '='
}

/// Whether a character may stand inside a value.
pub fn is_not_amp(data: char) -> (r: bool)
    ensures
        r == (data != '&'),
{
    data != '&'
}

/// The index of the first `c` in `data`, or the length if `c` is absent.
fn find_first(data: &str, c: char) -> (i: usize)
    ensures
        i == count_until(data@, c),
{
    let n = data.unicode_len();
    let mut i: usize = 0;
    while i < n
        invariant
            i <= n,
            n == data@.len(),
            forall|j: int| 0 <= j < i ==> data@[j] != c,
        decreases n - i,
    {
        if data.get_char(i) == c {
            proof {
                lemma_count_until_is(data@, c, i as int);
            }
            return i;
        }
        i += 1;
    }
    proof {
        lemma_count_until_is(data@, c, n as int);
    }
    n
}

/// Consume an optional leading `?` or `&`, then the longest prefix with
/// no `=`. Returns (remainder, key); never fails.
pub fn parse_key<'a>(data: &'a str) -> (res: (&'a str, &'a str))
    ensures
        res.0@ == spec_parse_key(data@).0,
        res.1@ == spec_parse_key(data@).1,
{
    let n = data.unicode_len();
    let t: &str = if n > 0 {
        let c0 = data.get_char(0);
        if c0 == '&' || c0 == '?' {
            data.substring_char(1, n)
        } else {
            data
        }
    } else {
        data
    };
    let tn = t.unicode_len();
    let i = find_first(t, '=');
    proof {
        lemma_count_until_le(t@, '=');
    }
    let key = t.substring_char(0, i);
    let rem = t.substring_char(i, tn);
    (rem, key)
}

/// Consume an optional leading `=`, then the longest prefix with no `&`.
/// Returns (remainder, value); never fails.
pub fn parse_value<'a>(data: &'a str) -> (res: (&'a str, &'a str))
    ensures
        res.0@ == spec_parse_value(data@).0,
        res.1@ == spec_parse_value(data@).1,
{
    let n = data.unicode_len();
    let t: &str = if n > 0 && data.get_char(0) == '=' {
        data.substring_char(1, n)
    } else {
        data
    };
    let tn = t.unicode_len();
    let i = find_first(t, '&');
    proof {
        lemma_count_until_le(t@, '&');
    }
    let value = t.substring_char(0, i);
    let rem = t.substring_char(i, tn);
    (rem, value)
}

/// Extract one `key=value` pair: a key, a required literal `=`, a value.
/// `None` exactly when no `=` follows the key.
pub fn parse_one<'a>(data: &'a str) -> (res: Option<(&'a str, (&'a str, &'a str))>)
    ensures
        match res {
            Some(p) => spec_parse_one(data@) == Some((p.0@, (p.1.0@, p.1.1@))),
            None => spec_parse_one(data@) is None,
        },
{
    let (r1, key) = parse_key(data);
    let n1 = r1.unicode_len();
    if n1 > 0 && !is_not_equals(r1.get_char(0)) {
        let rest = r1.substring_char(1, n1);
        let (r2, value) = parse_value(rest);
        Some((r2, (key, value)))
    } else {
        None
    }
}

/// The mapping accumulator: starting from `m`, repeatedly extract a pair
/// from the remainder and insert it, until no pair can be extracted.
/// Returns (final remainder, final mapping).
///
/// The guard on the remainder's length keeps the recursion visibly
/// well-founded; [`lemma_parse_one_shrinks`] shows it always holds, so
/// the halting branch under it is never taken.
pub open spec fn spec_accumulate(s: Seq<char>, m: Map<Seq<char>, Seq<char>>) -> (
    Seq<char>,
    Map<Seq<char>, Seq<char>>,
)
    decreases s.len(),
{
    match spec_parse_one(s) {
        Some(step) => {
            if step.0.len() < s.len() {
                spec_accumulate(step.0, m.insert(step.1.0, step.1.1))
            } else {
                (s, m)
            }
        },
        None => (s, m),
    }
}

/// The mapping extracted from a whole query string.
pub open spec fn spec_parse_params(s: Seq<char>) -> Map<Seq<char>, Seq<char>> {
    spec_accumulate(s, Map::empty()).1
}

/// The marker for an unrecoverable structural parse failure. The
/// accumulator never produces one, as [`parse_parameters`] proves; the
/// public entry point nonetheless recovers from it with an empty mapping.
#[derive(Debug, PartialEq, Eq, Structural)]
pub struct ParseError;

/// Run the mapping accumulator over the whole input, starting from an
/// empty mapping. Never fails; the final remainder is what no further
/// pair could be extracted from.
pub fn parse_parameters<'a>(data: &'a str) -> (res: Result<(&'a str, ParamMap), ParseError>)
    ensures
        res is Ok,
        res matches Ok(p) ==> {
            &&& p.0@ == spec_accumulate(data@, Map::empty()).0
            &&& p.1@ == spec_parse_params(data@)
            &&& p.1.wf()
        },
{
    let mut m = ParamMap::new();
    let mut rem: &str = data;
    loop
        invariant
            m.wf(),
            spec_accumulate(rem@, m@) == spec_accumulate(data@, Map::empty()),
        ensures
            m.wf(),
            spec_accumulate(rem@, m@) == spec_accumulate(data@, Map::empty()),
            spec_parse_one(rem@) is None,
        decreases rem@.len(),
    {
        match parse_one(rem) {
            Some(step) => {
                proof {
                    lemma_parse_one_shrinks(rem@);
                }
                let (r, kv) = step;
                m.insert(kv.0.to_owned(), kv.1.to_owned());
                rem = r;
            },
            None => {
                break ;
            },
        }
    }
    proof {
        assert(spec_accumulate(rem@, m@) == (rem@, m@));
    }
    Ok((rem, m))
}

/// Parse query string parameters.
///
/// The result maps each key to the value of its last `key=value`
/// occurrence; extraction stops at the first dangling key, and an input
/// from which nothing can be extracted yields an empty mapping.
pub fn parse_params(data: &str) -> (m: ParamMap)
    ensures
        m.wf(),
        m@ == spec_parse_params(data@),
{
    match parse_parameters(data) {
        Ok(pair) => pair.1,
        Err(_) => ParamMap::new(),
    }
}

} // verus!
