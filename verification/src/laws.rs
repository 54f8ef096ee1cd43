//! Round-trip laws: parsing the serialization of a pair list recovers
//! exactly the mapping of that list.

use vstd::prelude::*;

use crate::params::{lemma_map_of_pairs_at, lemma_map_of_pairs_len, map_of_pairs};
use crate::parser::{
    count_until, lemma_count_until_is, spec_accumulate, spec_parse_one, spec_parse_params,
    strip_eq_delim, strip_query_delim,
};

verus! {

/// A pair that serialization can represent faithfully: its key holds no
/// `=`, its value holds no `&` and does not begin with `=` (a leading `=`
/// would be taken for the optional separator and dropped).
pub open spec fn pair_encodable(p: (Seq<char>, Seq<char>)) -> bool {
    &&& forall|i: int| 0 <= i < p.0.len() ==> p.0[i] != '='
    &&& forall|i: int| 0 <= i < p.1.len() ==> p.1[i] != '&'
    &&& p.1.len() > 0 ==> p.1[0] != '='
}

/// One serialized pair: `key=value`.
pub open spec fn encode_pair(p: (Seq<char>, Seq<char>)) -> Seq<char> {
    p.0 + seq!['='] + p.1
}

/// The serialization of a pair list, each pair introduced by a delimiter:
/// the first by `d`, the rest by `&`.
pub open spec fn encode_from(ps: Seq<(Seq<char>, Seq<char>)>, d: char) -> Seq<char>
    decreases ps.len(),
{
    if ps.len() == 0 {
        Seq::empty()
    } else {
        seq![d] + encode_pair(ps.first()) + encode_from(ps.drop_first(), '&')
    }
}

/// The usual form of a query string: `?k1=v1&k2=v2`, empty for an empty
/// pair list.
pub open spec fn encode_query(ps: Seq<(Seq<char>, Seq<char>)>) -> Seq<char> {
    encode_from(ps, '?')
}

/// The mapping a pair list denotes, inserted left to right into `m`.
pub open spec fn insert_all(m: Map<Seq<char>, Seq<char>>, ps: Seq<(Seq<char>, Seq<char>)>) -> Map<
    Seq<char>,
    Seq<char>,
>
    decreases ps.len(),
{
    if ps.len() == 0 {
        m
    } else {
        insert_all(m.insert(ps.first().0, ps.first().1), ps.drop_first())
    }
}

/// Appending a pair to the list inserts it last.
proof fn lemma_insert_all_push(
    m: Map<Seq<char>, Seq<char>>,
    ps: Seq<(Seq<char>, Seq<char>)>,
    p: (Seq<char>, Seq<char>),
)
    ensures
        insert_all(m, ps.push(p)) == insert_all(m, ps).insert(p.0, p.1),
    decreases ps.len(),
{
    if ps.len() == 0 {
        reveal_with_fuel(insert_all, 2);
        assert(ps.push(p).first() == p);
        assert(ps.push(p).drop_first() =~= Seq::<(Seq<char>, Seq<char>)>::empty());
        assert(insert_all(m, ps.push(p)) == m.insert(p.0, p.1));
    } else {
        assert(ps.push(p).first() == ps.first());
        assert(ps.push(p).drop_first() =~= ps.drop_first().push(p));
        lemma_insert_all_push(m.insert(ps.first().0, ps.first().1), ps.drop_first(), p);
        assert(insert_all(m, ps.push(p)) == insert_all(
            m.insert(ps.first().0, ps.first().1),
            ps.drop_first().push(p),
        ));
    }
}

/// Inserting left to right into an empty map folds to [`map_of_pairs`].
proof fn lemma_insert_all_empty(ps: Seq<(Seq<char>, Seq<char>)>)
    ensures
        insert_all(Map::empty(), ps) == map_of_pairs(ps),
    decreases ps.len(),
{
    if ps.len() > 0 {
        lemma_insert_all_empty(ps.drop_last());
        assert(ps.drop_last().push(ps.last()) =~= ps);
        lemma_insert_all_push(Map::empty(), ps.drop_last(), ps.last());
    }
}

/// Extracting one pair from a serialized pair followed by a delimited
/// tail returns exactly that pair and leaves exactly the tail.
proof fn lemma_parse_one_encoded(k: Seq<char>, v: Seq<char>, rest: Seq<char>, d: char)
    requires
        d == '?' || d == '&',
        pair_encodable((k, v)),
        rest.len() > 0 ==> rest[0] == '&',
    ensures
        spec_parse_one(seq![d] + encode_pair((k, v)) + rest) == Some((rest, (k, v))),
{
    let s = seq![d] + encode_pair((k, v)) + rest;
    assert(s[0] == d);
    let t = strip_query_delim(s);
    assert(t =~= k + seq!['='] + v + rest);
    lemma_count_until_is(t, '=', k.len() as int);
    assert(count_until(t, '=') == k.len());
    assert(t.take(k.len() as int) =~= k);
    let r1 = t.skip(k.len() as int);
    assert(r1 =~= seq!['='] + v + rest);
    assert(r1.len() > 0 && r1[0] == '=');
    let r2 = r1.drop_first();
    assert(r2 =~= v + rest);
    let u = strip_eq_delim(r2);
    assert(u == r2);
    lemma_count_until_is(u, '&', v.len() as int);
    assert(u.take(v.len() as int) =~= v);
    assert(u.skip(v.len() as int) =~= rest);
}

/// Running the accumulator over a serialized pair list followed by an
/// unextractable tail inserts every pair, left to right, and stops with
/// exactly the tail left over.
proof fn lemma_accumulate_encode(
    ps: Seq<(Seq<char>, Seq<char>)>,
    m: Map<Seq<char>, Seq<char>>,
    d: char,
    tail: Seq<char>,
)
    requires
        d == '?' || d == '&',
        forall|i: int| 0 <= i < ps.len() ==> pair_encodable(ps[i]),
        tail.len() > 0 ==> tail[0] == '&',
        spec_parse_one(tail) is None,
    ensures
        spec_accumulate(encode_from(ps, d) + tail, m) == (tail, insert_all(m, ps)),
    decreases ps.len(),
{
    if ps.len() == 0 {
        assert(encode_from(ps, d) + tail =~= tail);
    } else {
        let p = ps.first();
        let rest = encode_from(ps.drop_first(), '&') + tail;
        let s = encode_from(ps, d) + tail;
        assert(pair_encodable(p));
        if ps.drop_first().len() > 0 {
            assert(rest[0] == '&');
        }
        lemma_parse_one_encoded(p.0, p.1, rest, d);
        assert(s =~= seq![d] + encode_pair(p) + rest);
        assert(rest.len() < s.len());
        assert(forall|i: int|
            0 <= i < ps.drop_first().len() ==> pair_encodable(#[trigger] ps.drop_first()[i]));
        lemma_accumulate_encode(ps.drop_first(), m.insert(p.0, p.1), '&', tail);
    }
}

/// Round trip: parsing the serialization `?k1=v1&k2=v2` of a pair list
/// yields exactly the mapping that list denotes, the last occurrence of
/// a repeated key winning.
pub proof fn lemma_parse_round_trip(ps: Seq<(Seq<char>, Seq<char>)>)
    requires
        forall|i: int| 0 <= i < ps.len() ==> pair_encodable(ps[i]),
    ensures
        spec_parse_params(encode_query(ps)) == map_of_pairs(ps),
{
    assert(spec_parse_one(Seq::<char>::empty()) is None);
    lemma_accumulate_encode(ps, Map::empty(), '?', Seq::empty());
    assert(encode_query(ps) + Seq::<char>::empty() =~= encode_query(ps));
    lemma_insert_all_empty(ps);
}

/// Malformed tail: after the serialization of a pair list, a dangling
/// key with no `=` is dropped, and every pair before it is retained.
pub proof fn lemma_parse_malformed_tail(ps: Seq<(Seq<char>, Seq<char>)>, k: Seq<char>)
    requires
        forall|i: int| 0 <= i < ps.len() ==> pair_encodable(ps[i]),
        forall|i: int| 0 <= i < k.len() ==> k[i] != '=',
    ensures
        spec_parse_params(encode_query(ps) + (seq!['&'] + k)) == map_of_pairs(ps),
{
    let tail = seq!['&'] + k;
    assert(strip_query_delim(tail) =~= k);
    lemma_count_until_is(k, '=', k.len() as int);
    assert(k.skip(k.len() as int) =~= Seq::<char>::empty());
    assert(spec_parse_one(tail) is None);
    lemma_accumulate_encode(ps, Map::empty(), '?', tail);
    lemma_insert_all_empty(ps);
}

/// Parsing the serialization of a pair list yields at most one entry per
/// pair.
pub proof fn lemma_parse_entry_bound(ps: Seq<(Seq<char>, Seq<char>)>)
    requires
        forall|i: int| 0 <= i < ps.len() ==> pair_encodable(ps[i]),
    ensures
        spec_parse_params(encode_query(ps)).dom().finite(),
        spec_parse_params(encode_query(ps)).dom().len() <= ps.len(),
{
    lemma_parse_round_trip(ps);
    lemma_map_of_pairs_len(ps);
}

/// Parsing the serialization of `n` pairs with pairwise distinct keys
/// yields a mapping with exactly `n` entries, each key mapped to its
/// value.
pub proof fn lemma_parse_counts_pairs(ps: Seq<(Seq<char>, Seq<char>)>)
    requires
        forall|i: int| 0 <= i < ps.len() ==> pair_encodable(ps[i]),
        forall|i: int, j: int| 0 <= i < j < ps.len() ==> ps[i].0 != ps[j].0,
    ensures
        spec_parse_params(encode_query(ps)).dom().finite(),
        spec_parse_params(encode_query(ps)).dom().len() == ps.len(),
        forall|i: int|
            0 <= i < ps.len() ==> spec_parse_params(encode_query(ps)).contains_key(
                #[trigger] ps[i].0,
            ) && spec_parse_params(encode_query(ps))[ps[i].0] == ps[i].1,
{
    lemma_parse_round_trip(ps);
    lemma_map_of_pairs_len(ps);
    assert forall|i: int|
        0 <= i < ps.len() implies spec_parse_params(encode_query(ps)).contains_key(
        #[trigger] ps[i].0,
    ) && spec_parse_params(encode_query(ps))[ps[i].0] == ps[i].1 by {
        lemma_map_of_pairs_at(ps, i);
    }
}

} // verus!
