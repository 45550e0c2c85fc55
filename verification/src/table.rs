//! A map kept as a list of pairs with distinct keys, in insertion order.
use vstd::prelude::*;

verus! {

/// Keys that can be compared and copied by their views.
pub trait Key: View + Sized {
    fn same_key(&self, other: &Self) -> (res: bool)
        ensures
            res == (self@ == other@),
    ;

    fn copy_key(&self) -> (res: Self)
        ensures
            res@ == self@,
    ;
}

impl Key for String {
    fn same_key(&self, other: &Self) -> (res: bool) {
        *self == *other
    }

    fn copy_key(&self) -> (res: Self) {
        self.clone()
    }
}

/// The map held by a list of pairs; a later pair wins over an earlier one with
/// the same key.
pub open spec fn pairs_map<K: View, V: View>(s: Seq<(K, V)>) -> Map<K::V, V::V>
    decreases s.len(),
{
    if s.len() == 0 {
        Map::empty()
    } else {
        pairs_map(s.drop_last()).insert(s.last().0@, s.last().1@)
    }
}

pub open spec fn distinct_keys<K: View, V>(s: Seq<(K, V)>) -> bool {
    forall|i: int, j: int| 0 <= i < j < s.len() ==> s[i].0@ != s[j].0@
}

pub proof fn lemma_pairs_map<K: View, V: View>(s: Seq<(K, V)>)
    requires
        distinct_keys(s),
    ensures
        forall|k: K::V| #[trigger] pairs_map(s).contains_key(k) <==> exists|i: int| 0 <= i < s.len() && s[i].0@ == k,
        forall|i: int| 0 <= i < s.len() ==> #[trigger] pairs_map(s)[s[i].0@] == s[i].1@,
        pairs_map(s).dom().finite(),
        pairs_map(s).len() == s.len(),
    decreases s.len(),
{
    if s.len() > 0 {
        let p = s.drop_last();
        assert forall|i: int, j: int| 0 <= i < j < p.len() implies p[i].0@ != p[j].0@ by {
            assert(p[i] == s[i]);
            assert(p[j] == s[j]);
        }
        lemma_pairs_map(p);
        let m = pairs_map(p);
        assert(pairs_map(s) == m.insert(s.last().0@, s.last().1@));
        assert(s[s.len() - 1] == s.last());
        assert forall|k: K::V| #[trigger] pairs_map(s).contains_key(k) <==> exists|i: int| 0 <= i < s.len() && s[i].0@ == k by {
            if pairs_map(s).contains_key(k) && k != s.last().0@ {
                assert(m.contains_key(k));
                let i = choose|i: int| 0 <= i < p.len() && p[i].0@ == k;
                assert(s[i] == p[i]);
            }
            if exists|i: int| 0 <= i < s.len() && s[i].0@ == k {
                let i = choose|i: int| 0 <= i < s.len() && s[i].0@ == k;
                if i < p.len() {
                    assert(s[i] == p[i]);
                }
            }
        }
        assert forall|i: int| 0 <= i < s.len() implies #[trigger] pairs_map(s)[s[i].0@] == s[i].1@ by {
            if i < p.len() {
                assert(s[i] == p[i]);
                assert(s[i].0@ != s.last().0@);
            }
        }
        assert(!m.contains_key(s.last().0@)) by {
            if m.contains_key(s.last().0@) {
                let i = choose|i: int| 0 <= i < p.len() && p[i].0@ == s.last().0@;
                assert(s[i] == p[i]);
            }
        }
    }
}

/// A map from keys to values, kept in insertion order.
pub struct Table<K, V> {
    pairs: Vec<(K, V)>,
}

impl<K: Key, V: View> Table<K, V> {
    pub closed spec fn wf(&self) -> bool {
        distinct_keys(self.pairs@)
    }

    pub closed spec fn view(&self) -> Map<K::V, V::V> {
        pairs_map(self.pairs@)
    }

    /// The pairs in order.
    pub closed spec fn pairs(&self) -> Seq<(K, V)> {
        self.pairs@
    }

    pub proof fn lemma_pairs(&self)
        requires
            self.wf(),
        ensures
            distinct_keys(self.pairs()),
            forall|k: K::V| #[trigger] self.view().contains_key(k) <==> exists|i: int|
                0 <= i < self.pairs().len() && self.pairs()[i].0@ == k,
            forall|i: int| 0 <= i < self.pairs().len() ==> #[trigger] self.view()[self.pairs()[i].0@]
                == self.pairs()[i].1@,
            self.view().dom().finite(),
            self.view().len() == self.pairs().len(),
    {
        lemma_pairs_map(self.pairs@);
        assert forall|k: K::V| #[trigger] self.view().contains_key(k) <==> exists|i: int|
            0 <= i < self.pairs().len() && self.pairs()[i].0@ == k by {
            assert(self.view() == pairs_map(self.pairs@));
            assert(self.pairs() == self.pairs@);
        }
    }

    pub fn new() -> (res: Self)
        ensures
            res.wf(),
            res.view() == Map::<K::V, V::V>::empty(),
            res.pairs().len() == 0,
    {
        Table { pairs: Vec::new() }
    }

    pub fn len(&self) -> (res: usize)
        ensures
            res == self.pairs().len(),
    {
        self.pairs.len()
    }

    /// The `i`-th pair.
    pub fn pair(&self, i: usize) -> (res: &(K, V))
        requires
            i < self.pairs().len(),
        ensures
            *res == self.pairs()[i as int],
    {
        &self.pairs[i]
    }

    fn find(&self, k: &K) -> (res: Option<usize>)
        requires
            self.wf(),
        ensures
            res matches Some(i) ==> i < self.pairs@.len() && self.pairs@[i as int].0@ == k@,
            res is Some <==> self.view().contains_key(k@),
    {
        let n = self.pairs.len();
        let mut i: usize = 0;
        while i < n
            invariant
                i <= n,
                n == self.pairs@.len(),
                self.wf(),
                forall|j: int| 0 <= j < i ==> self.pairs@[j].0@ != k@,
            decreases n - i,
        {
            if self.pairs[i].0.same_key(k) {
                proof {
                    lemma_pairs_map(self.pairs@);
                }
                return Some(i);
            }
            i = i + 1;
        }
        proof {
            lemma_pairs_map(self.pairs@);
        }
        None
    }

    pub fn contains(&self, k: &K) -> (res: bool)
        requires
            self.wf(),
        ensures
            res == self.view().contains_key(k@),
    {
        self.find(k).is_some()
    }

    pub fn get(&self, k: &K) -> (res: Option<&V>)
        requires
            self.wf(),
        ensures
            res is Some <==> self.view().contains_key(k@),
            res matches Some(v) ==> v@ == self.view()[k@],
    {
        match self.find(k) {
            None => None,
            Some(i) => {
                proof {
                    lemma_pairs_map(self.pairs@);
                }
                Some(&self.pairs[i].1)
            },
        }
    }

    /// Sets the value of `k`, replacing the pair of `k` in place if there is one
    /// and adding a pair at the end otherwise.
    pub fn insert(&mut self, k: K, v: V)
        requires
            old(self).wf(),
        ensures
            final(self).wf(),
            final(self).view() == old(self).view().insert(k@, v@),
            old(self).view().contains_key(k@) ==> final(self).pairs().len() == old(self).pairs().len(),
            !old(self).view().contains_key(k@) ==> final(self).pairs() == old(self).pairs().push((k, v)),
    {
        proof {
            lemma_pairs_map(self.pairs@);
        }
        match self.find(&k) {
            Some(i) => {
                let ghost old_pairs = self.pairs@;
                self.pairs.set(i, (k, v));
                proof {
                    let s = self.pairs@;
                    assert forall|a: int, b: int| 0 <= a < b < s.len() implies s[a].0@ != s[b].0@ by {
                        if a != i && b != i {
                            assert(s[a] == old_pairs[a]);
                            assert(s[b] == old_pairs[b]);
                        } else if a == i {
                            assert(s[b] == old_pairs[b]);
                        } else {
                            assert(s[a] == old_pairs[a]);
                        }
                    }
                    lemma_pairs_map(s);
                    assert(self.view() =~= old(self).view().insert(k@, v@)) by {
                        assert forall|key: K::V| #[trigger] self.view().contains_key(key) <==> old(self).view().insert(k@, v@).contains_key(key) by {
                            if self.view().contains_key(key) {
                                let j = choose|j: int| 0 <= j < s.len() && s[j].0@ == key;
                                if j != i {
                                    assert(s[j] == old_pairs[j]);
                                    assert(old_pairs[j].0@ == key);
                                }
                            }
                            if old(self).view().contains_key(key) {
                                let j = choose|j: int| 0 <= j < old_pairs.len() && old_pairs[j].0@ == key;
                                if j != i {
                                    assert(s[j] == old_pairs[j]);
                                    assert(s[j].0@ == key);
                                }
                            }
                            if key == k@ {
                                assert(s[i as int].0@ == key);
                            }
                        }
                        assert forall|key: K::V| #[trigger] self.view().contains_key(key) implies self.view()[key]
                            == old(self).view().insert(k@, v@)[key] by {
                            let j = choose|j: int| 0 <= j < s.len() && s[j].0@ == key;
                            if j != i {
                                assert(s[j] == old_pairs[j]);
                            }
                        }
                    }
                }
            },
            None => {
                let ghost old_pairs = self.pairs@;
                self.pairs.push((k, v));
                proof {
                    let s = self.pairs@;
                    assert(s.drop_last() =~= old_pairs);
                    assert forall|a: int, b: int| 0 <= a < b < s.len() implies s[a].0@ != s[b].0@ by {
                        assert(s[a] == old_pairs[a]);
                        if b < old_pairs.len() {
                            assert(s[b] == old_pairs[b]);
                        }
                    }
                }
            },
        }
    }

    /// Removes the pair of `k`, if there is one, keeping the order of the others.
    pub fn remove(&mut self, k: &K) -> (res: Option<V>)
        requires
            old(self).wf(),
        ensures
            final(self).wf(),
            final(self).view() == old(self).view().remove(k@),
            res is Some <==> old(self).view().contains_key(k@),
            res matches Some(v) ==> v@ == old(self).view()[k@],
    {
        proof {
            lemma_pairs_map(self.pairs@);
        }
        match self.find(k) {
            None => {
                assert(self.view() =~= old(self).view().remove(k@));
                None
            },
            Some(i) => {
                let ghost old_pairs = self.pairs@;
                let (_, v) = self.pairs.remove(i);
                proof {
                    let s = self.pairs@;
                    assert(s =~= old_pairs.remove(i as int));
                    assert forall|a: int, b: int| 0 <= a < b < s.len() implies s[a].0@ != s[b].0@ by {
                        let oa = if a < i { a } else { a + 1 };
                        let ob = if b < i { b } else { b + 1 };
                        assert(s[a] == old_pairs[oa]);
                        assert(s[b] == old_pairs[ob]);
                    }
                    lemma_pairs_map(s);
                    assert forall|key: K::V| #[trigger] self.view().contains_key(key) <==> old(self).view().remove(k@).contains_key(key) by {
                        if self.view().contains_key(key) {
                            let j = choose|j: int| 0 <= j < s.len() && s[j].0@ == key;
                            let oj = if j < i { j } else { j + 1 };
                            assert(s[j] == old_pairs[oj]);
                        }
                        if old(self).view().remove(k@).contains_key(key) {
                            let j = choose|j: int| 0 <= j < old_pairs.len() && old_pairs[j].0@ == key;
                            assert(j != i);
                            let nj = if j < i { j } else { j - 1 };
                            assert(s[nj] == old_pairs[j]);
                        }
                    }
                    assert forall|key: K::V| #[trigger] self.view().contains_key(key) implies self.view()[key]
                        == old(self).view().remove(k@)[key] by {
                        let j = choose|j: int| 0 <= j < s.len() && s[j].0@ == key;
                        let oj = if j < i { j } else { j + 1 };
                        assert(s[j] == old_pairs[oj]);
                    }
                    assert(self.view() =~= old(self).view().remove(k@));
                }
                Some(v)
            },
        }
    }
}

} // verus!
