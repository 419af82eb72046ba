//! The tag map of a record.
//!
//! Tags are the `key:value` tokens of a line.  The map keeps keys in the
//! order of their first occurrence, and a later token with the same key
//! replaces the earlier value.  Both choices make every operation, rendering
//! included, deterministic.

use vstd::prelude::*;
use vstd::string::StrSliceExecFns;
use crate::scan::pairs_view;

verus! {

/// Inserts a pair: replaces the value of an existing key in place, appends a
/// new key at the end.
pub open spec fn upsert(ps: Seq<(Seq<char>, Seq<char>)>, k: Seq<char>, v: Seq<char>) -> Seq<
    (Seq<char>, Seq<char>),
>
    decreases ps.len(),
{
    if ps.len() == 0 {
        seq![(k, v)]
    } else if ps[0].0 == k {
        seq![(k, v)] + ps.drop_first()
    } else {
        seq![ps[0]] + upsert(ps.drop_first(), k, v)
    }
}

/// Folds a scanned pair sequence into a map, inserting left to right.
pub open spec fn fold_pairs(ps: Seq<(Seq<char>, Seq<char>)>) -> Seq<(Seq<char>, Seq<char>)>
    decreases ps.len(),
{
    if ps.len() == 0 {
        Seq::empty()
    } else {
        upsert(fold_pairs(ps.drop_last()), ps.last().0, ps.last().1)
    }
}

/// The value under a key: that of the first pair whose key matches.
pub open spec fn lookup(ps: Seq<(Seq<char>, Seq<char>)>, k: Seq<char>) -> Option<Seq<char>>
    decreases ps.len(),
{
    if ps.len() == 0 {
        None
    } else if ps[0].0 == k {
        Some(ps[0].1)
    } else {
        lookup(ps.drop_first(), k)
    }
}

/// No two pairs share a key.
pub open spec fn distinct_keys(ps: Seq<(Seq<char>, Seq<char>)>) -> bool {
    forall|i: int, j: int| 0 <= i < j < ps.len() ==> (#[trigger] ps[i]).0 != (#[trigger] ps[j]).0
}

/// Upserting keeps keys distinct and the key set grows by at most `k`.
pub proof fn lemma_upsert_distinct(ps: Seq<(Seq<char>, Seq<char>)>, k: Seq<char>, v: Seq<char>)
    requires
        distinct_keys(ps),
    ensures
        distinct_keys(upsert(ps, k, v)),
        forall|j: int| 0 <= j < upsert(ps, k, v).len() ==> (#[trigger] upsert(ps, k, v)[j]).0 == k
            || exists|i: int| 0 <= i < ps.len() && (#[trigger] ps[i]).0 == upsert(ps, k, v)[j].0,
    decreases ps.len(),
{
    if ps.len() == 0 {
    } else if ps[0].0 == k {
        assert forall|i: int, j: int| 0 <= i < j < upsert(ps, k, v).len() implies (#[trigger] upsert(
            ps, k, v)[i]).0 != (#[trigger] upsert(ps, k, v)[j]).0 by {
            assert(ps[i] == upsert(ps, k, v)[i] || i == 0);
            assert(ps[j] == upsert(ps, k, v)[j]);
        }
    } else {
        assert(distinct_keys(ps.drop_first()));
        lemma_upsert_distinct(ps.drop_first(), k, v);
        let u = upsert(ps, k, v);
        let ud = upsert(ps.drop_first(), k, v);
        assert forall|i: int, j: int| 0 <= i < j < u.len() implies (#[trigger] u[i]).0 != (
        #[trigger] u[j]).0 by {
            if i == 0 {
                assert(u[j] == ud[j - 1]);
                if ud[j - 1].0 == k {
                    assert(ps[0].0 != k);
                } else {
                    let w = choose|w: int| 0 <= w < ps.drop_first().len() && (#[trigger] ps.drop_first()[w]).0
                        == ud[j - 1].0;
                    assert(ps.drop_first()[w] == ps[w + 1]);
                }
            } else {
                assert(u[i] == ud[i - 1] && u[j] == ud[j - 1]);
            }
        }
    }
}

/// A deterministic map from tag keys to tag values, in first-occurrence
/// order.
#[derive(Debug)]
pub struct TagMap {
    pairs: Vec<(String, String)>,
}

impl View for TagMap {
    type V = Seq<(Seq<char>, Seq<char>)>;

    closed spec fn view(&self) -> Seq<(Seq<char>, Seq<char>)> {
        pairs_view(self.pairs@)
    }
}

impl Clone for TagMap {
    /// A clone holds the same pairs.
    fn clone(&self) -> (r: Self)
        ensures
            r@ == self@,
    {
        let n = self.pairs.len();
        let mut pairs: Vec<(String, String)> = Vec::new();
        let mut i: usize = 0;
        while i < n
            invariant
                0 <= i <= n,
                n == self.pairs@.len(),
                pairs@ =~= self.pairs@.take(i as int),
            decreases n - i,
        {
            pairs.push((self.pairs[i].0.clone(), self.pairs[i].1.clone()));
            i = i + 1;
        }
        proof {
            assert(pairs@ =~= self.pairs@);
        }
        TagMap { pairs }
    }
}

impl TagMap {
    /// Keys are pairwise distinct.
    pub open spec fn wf(self) -> bool {
        distinct_keys(self@)
    }

    /// The empty map.
    pub fn new() -> (r: TagMap)
        ensures
            r@ == Seq::<(Seq<char>, Seq<char>)>::empty(),
            r.wf(),
    {
        let r = TagMap { pairs: Vec::new() };
        proof {
            assert(r@ =~= Seq::<(Seq<char>, Seq<char>)>::empty());
        }
        r
    }

    /// Number of keys.
    pub fn len(&self) -> (r: usize)
        ensures
            r == self@.len(),
    {
        self.pairs.len()
    }

    /// Whether the map holds no key.
    pub fn is_empty(&self) -> (r: bool)
        ensures
            r == (self@.len() == 0),
    {
        self.pairs.len() == 0
    }

    /// The key of the pair at `i`.
    pub fn key_at(&self, i: usize) -> (r: &String)
        requires
            i < self@.len(),
        ensures
            r@ == self@[i as int].0,
    {
        &self.pairs[i].0
    }

    /// The value of the pair at `i`.
    pub fn val_at(&self, i: usize) -> (r: &String)
        requires
            i < self@.len(),
        ensures
            r@ == self@[i as int].1,
    {
        &self.pairs[i].1
    }

    /// Inserts a pair: replaces the value of an existing key, appends a new
    /// key at the end.
    pub fn insert(&mut self, k: String, v: String)
        requires
            old(self).wf(),
        ensures
            final(self)@ == upsert(old(self)@, k@, v@),
            final(self).wf(),
    {
        let n = self.pairs.len();
        let mut j: usize = 0;
        while j < n
            invariant
                0 <= j <= n,
                n == self.pairs@.len(),
                *self == *old(self),
                old(self).wf(),
                forall|w: int| 0 <= w < j ==> (#[trigger] self@[w]).0 != k@,
            decreases n - j,
        {
            if str_eq(self.pairs[j].0.as_str(), k.as_str()) {
                proof {
                    lemma_upsert_skip(self@, k@, v@, j as int);
                    assert(upsert(self@.skip(j as int), k@, v@) =~= seq![(k@, v@)] + self@.skip(
                        j as int).drop_first());
                    lemma_upsert_distinct(self@, k@, v@);
                }
                self.pairs[j] = (k, v);
                proof {
                    assert(self@ =~= old(self)@.update(j as int, (k@, v@)));
                    assert(old(self)@.update(j as int, (k@, v@)) =~= old(self)@.take(j as int)
                        + (seq![(k@, v@)] + old(self)@.skip(j as int).drop_first()));
                }
                return;
            }
            j = j + 1;
        }
        proof {
            lemma_upsert_skip(self@, k@, v@, j as int);
            assert(self@.skip(j as int) =~= Seq::<(Seq<char>, Seq<char>)>::empty());
            lemma_upsert_distinct(self@, k@, v@);
        }
        self.pairs.push((k, v));
        proof {
            assert(self@ =~= old(self)@.take(n as int) + seq![(k@, v@)]);
            assert(upsert(old(self)@.skip(n as int), k@, v@) =~= seq![(k@, v@)]);
        }
    }

    /// The value under a key, if the key is present.
    pub fn get(&self, k: &str) -> (r: Option<&String>)
        ensures
            match r {
                Some(v) => lookup(self@, k@) == Some(v@),
                None => lookup(self@, k@) is None,
            },
    {
        let n = self.pairs.len();
        let mut j: usize = 0;
        proof {
            assert(self@.skip(0) =~= self@);
        }
        while j < n
            invariant
                0 <= j <= n,
                n == self.pairs@.len(),
                lookup(self@, k@) == lookup(self@.skip(j as int), k@),
            decreases n - j,
        {
            if str_eq(self.pairs[j].0.as_str(), k) {
                proof {
                    assert(self@.skip(j as int)[0] == self@[j as int]);
                }
                return Some(&self.pairs[j].1);
            }
            proof {
                assert(self@.skip(j as int)[0] == self@[j as int]);
                assert(self@.skip(j as int).drop_first() =~= self@.skip(j as int + 1));
            }
            j = j + 1;
        }
        None
    }

    /// Builds a map from scanned pairs, inserting left to right.
    pub fn from_pairs(ps: Vec<(String, String)>) -> (r: TagMap)
        ensures
            r@ == fold_pairs(pairs_view(ps@)),
            r.wf(),
    {
        let mut r = TagMap::new();
        let n = ps.len();
        let mut i: usize = 0;
        proof {
            assert(fold_pairs(pairs_view(ps@.take(0))) =~= Seq::<(Seq<char>, Seq<char>)>::empty());
            assert(pairs_view(ps@.take(0)) =~= Seq::<(Seq<char>, Seq<char>)>::empty());
        }
        while i < n
            invariant
                0 <= i <= n,
                n == ps@.len(),
                r.wf(),
                r@ == fold_pairs(pairs_view(ps@.take(i as int))),
            decreases n - i,
        {
            let (k, v) = (ps[i].0.clone(), ps[i].1.clone());
            r.insert(k, v);
            proof {
                let pv = pairs_view(ps@.take(i as int + 1));
                assert(pv.drop_last() =~= pairs_view(ps@.take(i as int)));
                assert(pv.last() == (ps@[i as int].0@, ps@[i as int].1@));
            }
            i = i + 1;
        }
        proof {
            assert(ps@.take(n as int) =~= ps@);
        }
        r
    }
}

/// Upserting past a prefix that does not hold the key only touches the rest.
pub proof fn lemma_upsert_skip(ps: Seq<(Seq<char>, Seq<char>)>, k: Seq<char>, v: Seq<char>, j: int)
    requires
        0 <= j <= ps.len(),
        forall|w: int| 0 <= w < j ==> (#[trigger] ps[w]).0 != k,
    ensures
        upsert(ps, k, v) == ps.take(j) + upsert(ps.skip(j), k, v),
    decreases j,
{
    if j == 0 {
        assert(ps.skip(0) =~= ps);
        assert(upsert(ps, k, v) =~= ps.take(0) + upsert(ps, k, v));
    } else {
        assert(ps[0].0 != k);
        assert(ps.len() > 0);
        lemma_upsert_skip(ps.drop_first(), k, v, j - 1);
        assert(ps.drop_first().take(j - 1) =~= ps.take(j).drop_first());
        assert(ps.drop_first().skip(j - 1) =~= ps.skip(j));
        assert(upsert(ps, k, v) == seq![ps[0]] + upsert(ps.drop_first(), k, v));
        assert(seq![ps[0]] + (ps.drop_first().take(j - 1) + upsert(ps.drop_first().skip(j - 1), k,
            v)) =~= ps.take(j) + upsert(ps.skip(j), k, v));
    }
}

/// Character-for-character string equality.
pub fn str_eq(a: &str, b: &str) -> (r: bool)
    ensures
        r == (a@ == b@),
{
    let la = a.unicode_len();
    let lb = b.unicode_len();
    if la != lb {
        return false;
    }
    let mut i: usize = 0;
    while i < la
        invariant
            0 <= i <= la,
            la == a@.len(),
            la == b@.len(),
            forall|w: int| 0 <= w < i ==> a@[w] == b@[w],
        decreases la - i,
    {
        if a.get_char(i) != b.get_char(i) {
            return false;
        }
        i = i + 1;
    }
    proof {
        assert(a@ =~= b@);
    }
    true
}

} // verus!
