//! The result mapping: string keys to string values, keys unique,
//! last write wins, insertion order not significant.

use vstd::prelude::*;

verus! {

/// The mathematical content of a sequence of key/value pairs: the map
/// obtained by inserting the pairs left to right, so that a later pair
/// overrides an earlier one with the same key.
pub open spec fn map_of_pairs(ps: Seq<(Seq<char>, Seq<char>)>) -> Map<Seq<char>, Seq<char>>
    decreases ps.len(),
{
    if ps.len() == 0 {
        Map::empty()
    } else {
        map_of_pairs(ps.drop_last()).insert(ps.last().0, ps.last().1)
    }
}

/// The views of a sequence of owned pairs.
pub open spec fn pair_views(ps: Seq<(String, String)>) -> Seq<(Seq<char>, Seq<char>)> {
    ps.map_values(|p: (String, String)| (p.0@, p.1@))
}

/// If position `i` holds the last occurrence of its key, the folded map
/// takes that key to the value at `i`.
pub proof fn lemma_map_of_pairs_at(ps: Seq<(Seq<char>, Seq<char>)>, i: int)
    requires
        0 <= i < ps.len(),
        forall|j: int| i < j < ps.len() ==> ps[j].0 != ps[i].0,
    ensures
        map_of_pairs(ps).contains_key(ps[i].0),
        map_of_pairs(ps)[ps[i].0] == ps[i].1,
    decreases ps.len(),
{
    if i == ps.len() - 1 {
    } else {
        lemma_map_of_pairs_at(ps.drop_last(), i);
    }
}

/// A key that occurs in no pair is not in the folded map.
pub proof fn lemma_map_of_pairs_absent(ps: Seq<(Seq<char>, Seq<char>)>, k: Seq<char>)
    requires
        forall|j: int| 0 <= j < ps.len() ==> ps[j].0 != k,
    ensures
        !map_of_pairs(ps).contains_key(k),
    decreases ps.len(),
{
    if ps.len() > 0 {
        lemma_map_of_pairs_absent(ps.drop_last(), k);
    }
}

/// Replacing the value at the last occurrence of a key folds to an
/// insertion into the original map.
proof fn lemma_map_of_pairs_update(ps: Seq<(Seq<char>, Seq<char>)>, i: int, v: Seq<char>)
    requires
        0 <= i < ps.len(),
        forall|j: int| i < j < ps.len() ==> ps[j].0 != ps[i].0,
    ensures
        map_of_pairs(ps.update(i, (ps[i].0, v))) == map_of_pairs(ps).insert(ps[i].0, v),
    decreases ps.len(),
{
    let qs = ps.update(i, (ps[i].0, v));
    if i == ps.len() - 1 {
        assert(qs.drop_last() =~= ps.drop_last());
        assert(map_of_pairs(ps.drop_last()).insert(ps[i].0, ps[i].1).insert(ps[i].0, v)
            =~= map_of_pairs(ps.drop_last()).insert(ps[i].0, v));
    } else {
        assert(qs.drop_last() =~= ps.drop_last().update(i, (ps[i].0, v)));
        lemma_map_of_pairs_update(ps.drop_last(), i, v);
        assert(qs.last() == ps.last());
        assert(map_of_pairs(ps.drop_last()).insert(ps[i].0, v).insert(ps.last().0, ps.last().1)
            =~= map_of_pairs(ps.drop_last()).insert(ps.last().0, ps.last().1).insert(
            ps[i].0,
            v,
        ));
    }
}

/// The folded map has finitely many entries, no more than there are
/// pairs, and exactly as many where the keys are pairwise distinct.
pub proof fn lemma_map_of_pairs_len(ps: Seq<(Seq<char>, Seq<char>)>)
    ensures
        map_of_pairs(ps).dom().finite(),
        map_of_pairs(ps).dom().len() <= ps.len(),
        (forall|i: int, j: int| 0 <= i < j < ps.len() ==> ps[i].0 != ps[j].0)
            ==> map_of_pairs(ps).dom().len() == ps.len(),
    decreases ps.len(),
{
    if ps.len() == 0 {
    } else {
        lemma_map_of_pairs_len(ps.drop_last());
        let m = map_of_pairs(ps.drop_last());
        let k = ps.last().0;
        assert(map_of_pairs(ps).dom() =~= m.dom().insert(k));
        vstd::set::axiom_set_insert_len(m.dom(), k);
        if forall|i: int, j: int| 0 <= i < j < ps.len() ==> ps[i].0 != ps[j].0 {
            assert(forall|j: int| 0 <= j < ps.drop_last().len() ==> ps.drop_last()[j].0 != k);
            lemma_map_of_pairs_absent(ps.drop_last(), k);
        }
    }
}

/// A key/value mapping with string keys, backed by a vector of pairs
/// whose keys are pairwise distinct.
pub struct ParamMap {
    pairs: Vec<(String, String)>,
}

impl View for ParamMap {
    type V = Map<Seq<char>, Seq<char>>;

    closed spec fn view(&self) -> Map<Seq<char>, Seq<char>> {
        map_of_pairs(pair_views(self.pairs@))
    }
}

impl ParamMap {
    /// Well-formedness: no key occurs twice in the backing vector.
    pub closed spec fn wf(&self) -> bool {
        forall|i: int, j: int|
            0 <= i < j < self.pairs@.len() ==> self.pairs@[i].0@ != self.pairs@[j].0@
    }

    /// An empty mapping.
    pub fn new() -> (m: ParamMap)
        ensures
            m.wf(),
            m@ == Map::<Seq<char>, Seq<char>>::empty(),
    {
        let m = ParamMap { pairs: Vec::new() };
        proof {
            assert(pair_views(m.pairs@) =~= Seq::<(Seq<char>, Seq<char>)>::empty());
        }
        m
    }

    /// Insert a pair, overwriting any prior value for the same key.
    pub fn insert(&mut self, key: String, value: String)
        requires
            old(self).wf(),
        ensures
            final(self).wf(),
            final(self)@ == old(self)@.insert(key@, value@),
    {
        let n = self.pairs.len();
        let mut i: usize = 0;
        while i < n
            invariant
                old(self).wf(),
                n == self.pairs@.len(),
                i <= n,
                *self == *old(self),
                forall|j: int| 0 <= j < i ==> self.pairs@[j].0@ != key@,
            decreases n - i,
        {
            if self.pairs[i].0 == key {
                proof {
                    let ps = pair_views(self.pairs@);
                    assert forall|j: int| i < j < ps.len() implies ps[j].0 != ps[i as int].0 by {
                        assert(self.pairs@ == old(self).pairs@);
                        assert(old(self).pairs@[i as int].0@ != old(self).pairs@[j].0@);
                        assert(ps[j].0 == self.pairs@[j].0@);
                        assert(ps[i as int].0 == self.pairs@[i as int].0@);
                    }
                    lemma_map_of_pairs_update(ps, i as int, value@);
                }
                let kept = self.pairs.remove(i);
                self.pairs.insert(i, (kept.0, value));
                proof {
                    let old_ps = pair_views(old(self).pairs@);
                    assert(self.pairs@ =~= old(self).pairs@.update(
                        i as int,
                        (old(self).pairs@[i as int].0, value),
                    ));
                    assert(pair_views(self.pairs@) =~= old_ps.update(
                        i as int,
                        (old_ps[i as int].0, value@),
                    ));
                    assert forall|a: int, b: int|
                        0 <= a < b < self.pairs@.len() implies self.pairs@[a].0@
                        != self.pairs@[b].0@ by {
                        assert(old(self).pairs@[a].0@ != old(self).pairs@[b].0@);
                        assert(self.pairs@[a].0@ == old(self).pairs@[a].0@);
                        assert(self.pairs@[b].0@ == old(self).pairs@[b].0@);
                    }
                }
                return ;
            }
            i += 1;
        }
        self.pairs.push((key, value));
        proof {
            let ghost ps = pair_views(old(self).pairs@);
            assert(pair_views(self.pairs@) =~= ps.push((key@, value@)));
            assert(ps.push((key@, value@)).drop_last() =~= ps);
        }
    }

    /// Look a key up; `None` exactly when the key is absent.
    pub fn get<'a>(&'a self, key: &str) -> (r: Option<&'a String>)
        requires
            self.wf(),
        ensures
            match r {
                Some(v) => self@.contains_key(key@) && v@ == self@[key@],
                None => !self@.contains_key(key@),
            },
    {
        let sought: String = key.to_owned();
        let n = self.pairs.len();
        let mut i: usize = 0;
        while i < n
            invariant
                sought@ == key@,
                n == self.pairs@.len(),
                i <= n,
                self.wf(),
                forall|j: int| 0 <= j < i ==> self.pairs@[j].0@ != key@,
            decreases n - i,
        {
            if self.pairs[i].0 == sought {
                proof {
                    let ghost ps = pair_views(self.pairs@);
                    assert(forall|j: int| i < j < ps.len() ==> ps[j].0 != ps[i as int].0);
                    lemma_map_of_pairs_at(ps, i as int);
                }
                return Some(&self.pairs[i].1);
            }
            i += 1;
        }
        proof {
            lemma_map_of_pairs_absent(pair_views(self.pairs@), key@);
        }
        None
    }

    /// The number of entries in the mapping.
    pub fn len(&self) -> (n: usize)
        requires
            self.wf(),
        ensures
            n == self@.dom().len(),
    {
        proof {
            lemma_map_of_pairs_len(pair_views(self.pairs@));
        }
        self.pairs.len()
    }
}

} // verus!
