//! String-keyed, string-valued property maps. Entries keep insertion order,
//! keys are unique, and a later insert of an existing key overwrites in place.

use vstd::prelude::*;

verus! {

/// An ordered mapping from string keys to string values.
pub struct PropMap {
    pairs: Vec<(String, String)>,
}

impl View for PropMap {
    type V = Seq<(Seq<char>, Seq<char>)>;

    closed spec fn view(&self) -> Seq<(Seq<char>, Seq<char>)> {
        self.pairs@.map_values(|p: (String, String)| (p.0@, p.1@))
    }
}

/// Keys are pairwise distinct.
pub open spec fn prop_keys_unique(m: Seq<(Seq<char>, Seq<char>)>) -> bool {
    forall|i: int, j: int| 0 <= i < j < m.len() ==> m[i].0 != m[j].0
}

/// The value under `k`, taking the first entry whose key is `k`.
pub open spec fn prop_get(m: Seq<(Seq<char>, Seq<char>)>, k: Seq<char>) -> Option<Seq<char>>
    decreases m.len(),
{
    if m.len() == 0 {
        None
    } else if m[0].0 == k {
        Some(m[0].1)
    } else {
        prop_get(m.drop_first(), k)
    }
}

/// Some entry holds the key.
pub open spec fn prop_has_key(m: Seq<(Seq<char>, Seq<char>)>, k: Seq<char>) -> bool {
    exists|i: int| 0 <= i < m.len() && (#[trigger] m[i]).0 == k
}

/// Every entry of `filter` is present in `props` with an equal value.
pub open spec fn prop_matches(
    props: Seq<(Seq<char>, Seq<char>)>,
    filter: Seq<(Seq<char>, Seq<char>)>,
) -> bool {
    forall|i: int| 0 <= i < filter.len() ==> prop_get(props, #[trigger] filter[i].0) == Some(
        filter[i].1,
    )
}

/// When the first `n` keys differ from `k`, lookup continues past them.
proof fn lemma_prop_get_skip(m: Seq<(Seq<char>, Seq<char>)>, k: Seq<char>, n: int)
    requires
        0 <= n <= m.len(),
        forall|i: int| 0 <= i < n ==> m[i].0 != k,
    ensures
        prop_get(m, k) == prop_get(m.skip(n), k),
    decreases n,
{
    if n > 0 {
        assert(m[0].0 != k);
        assert forall|i: int| 0 <= i < n - 1 implies m.drop_first()[i].0 != k by {
            assert(m.drop_first()[i] == m[i + 1]);
        }
        lemma_prop_get_skip(m.drop_first(), k, n - 1);
        assert(m.drop_first().skip(n - 1) =~= m.skip(n));
    } else {
        assert(m.skip(0) =~= m);
    }
}

/// Looking up a key reads the entry that holds it.
proof fn lemma_prop_get_at(m: Seq<(Seq<char>, Seq<char>)>, k: Seq<char>, n: int)
    requires
        0 <= n < m.len(),
        m[n].0 == k,
        forall|i: int| 0 <= i < n ==> m[i].0 != k,
    ensures
        prop_get(m, k) == Some(m[n].1),
{
    lemma_prop_get_skip(m, k, n);
    assert(m.skip(n)[0] == m[n]);
}

/// A key held by no entry looks up to nothing.
proof fn lemma_prop_get_none(m: Seq<(Seq<char>, Seq<char>)>, k: Seq<char>)
    requires
        forall|i: int| 0 <= i < m.len() ==> m[i].0 != k,
    ensures
        prop_get(m, k) is None,
{
    lemma_prop_get_skip(m, k, m.len() as int);
    assert(m.skip(m.len() as int) =~= Seq::empty());
}

impl PropMap {
    /// Keys are pairwise distinct.
    pub open spec fn wf(&self) -> bool {
        prop_keys_unique(self@)
    }

    /// An empty map.
    pub fn new() -> (r: PropMap)
        ensures
            r@ == Seq::<(Seq<char>, Seq<char>)>::empty(),
            r.wf(),
    {
        let r = PropMap { pairs: Vec::new() };
        assert(r@ =~= Seq::<(Seq<char>, Seq<char>)>::empty());
        r
    }

    /// How many entries the map holds.
    pub fn len(&self) -> (r: usize)
        ensures
            r == self@.len(),
    {
        self.pairs.len()
    }

    /// The key of the entry at position `i`.
    pub fn key_at(&self, i: usize) -> (r: &String)
        requires
            i < self@.len(),
        ensures
            r@ == self@[i as int].0,
    {
        &self.pairs[i].0
    }

    /// The value of the entry at position `i`.
    pub fn value_at(&self, i: usize) -> (r: &String)
        requires
            i < self@.len(),
        ensures
            r@ == self@[i as int].1,
    {
        &self.pairs[i].1
    }

    /// The position of the entry whose key is `k`, if one exists.
    fn position_of(&self, k: &String) -> (r: Option<usize>)
        ensures
            match r {
                Some(i) => i < self@.len() && self@[i as int].0 == k@ && forall|j: int|
                    0 <= j < i ==> self@[j].0 != k@,
                None => forall|j: int| 0 <= j < self@.len() ==> self@[j].0 != k@,
            },
    {
        let n = self.pairs.len();
        let mut i: usize = 0;
        while i < n
            invariant
                n == self@.len(),
                i <= n,
                forall|j: int| 0 <= j < i ==> self@[j].0 != k@,
            decreases n - i,
        {
            assert(self@[i as int].0 == self.pairs@[i as int].0@);
            if self.pairs[i].0 == *k {
                return Some(i);
            }
            i += 1;
        }
        None
    }

    /// The value under `k`, if `k` is a key of the map.
    pub fn get(&self, k: &String) -> (r: Option<&String>)
        ensures
            match r {
                Some(v) => prop_get(self@, k@) == Some(v@),
                None => prop_get(self@, k@) is None,
            },
    {
        match self.position_of(k) {
            Some(i) => {
                proof {
                    lemma_prop_get_at(self@, k@, i as int);
                }
                Some(&self.pairs[i].1)
            },
            None => {
                proof {
                    lemma_prop_get_none(self@, k@);
                }
                None
            },
        }
    }

    /// Binds `k` to `v`: overwrites in place if `k` is already a key,
    /// otherwise appends a new entry.
    pub fn insert(&mut self, k: String, v: String)
        requires
            old(self).wf(),
        ensures
            final(self).wf(),
            prop_get(final(self)@, k@) == Some(v@),
            forall|k2: Seq<char>|
                k2 != k@ ==> prop_get(final(self)@, k2) == prop_get(old(self)@, k2),
            if prop_has_key(old(self)@, k@) {
                exists|i: int|
                    0 <= i < old(self)@.len() && (#[trigger] old(self)@[i]).0 == k@
                        && final(self)@ == old(self)@.update(i, (k@, v@))
            } else {
                final(self)@ == old(self)@.push((k@, v@))
            },
    {
        let ghost pre = self@;
        match self.position_of(&k) {
            Some(i) => {
                let ghost kk = k@;
                let ghost vv = v@;
                self.pairs.set(i, (k, v));
                proof {
                    assert(self@ =~= pre.update(i as int, (kk, vv)));
                    assert(forall|j: int|
                        0 <= j < self@.len() && j != i ==> self@[j] == pre[j]);
                    assert(pre[i as int].0 == kk);
                    assert(self@[i as int].0 == pre[i as int].0);
                    lemma_prop_get_at(self@, kk, i as int);
                    assert forall|k2: Seq<char>| k2 != kk implies prop_get(self@, k2)
                        == prop_get(pre, k2) by {
                        Self::lemma_get_unaffected(pre, self@, k2);
                    }
                    assert(prop_has_key(pre, kk));
                    assert(0 <= i < pre.len() && pre[i as int].0 == kk && self@ == pre.update(
                        i as int,
                        (kk, vv),
                    ));
                }
            },
            None => {
                let ghost kk = k@;
                let ghost vv = v@;
                self.pairs.push((k, v));
                proof {
                    assert(self@ =~= pre.push((kk, vv)));
                    lemma_prop_get_at(self@, kk, pre.len() as int);
                    assert forall|k2: Seq<char>| k2 != kk implies prop_get(self@, k2)
                        == prop_get(pre, k2) by {
                        Self::lemma_get_unaffected(pre, self@, k2);
                    }
                    assert(!prop_has_key(pre, kk));
                }
            },
        }
    }

    /// When every entry whose key is `k` keeps its value, and any appended
    /// entry has a different key, looking up `k` is unchanged.
    proof fn lemma_get_unaffected(
        a: Seq<(Seq<char>, Seq<char>)>,
        b: Seq<(Seq<char>, Seq<char>)>,
        k: Seq<char>,
    )
        requires
            a.len() <= b.len() <= a.len() + 1,
            forall|j: int| 0 <= j < a.len() ==> a[j].0 == b[j].0,
            forall|j: int| 0 <= j < a.len() && a[j].0 == k ==> a[j].1 == b[j].1,
            b.len() == a.len() + 1 ==> b.last().0 != k,
        ensures
            prop_get(a, k) == prop_get(b, k),
        decreases a.len(),
    {
        if a.len() == 0 {
            if b.len() == 1 {
                assert(b[0] == b.last());
                assert(b.drop_first() =~= Seq::empty());
            }
        } else {
            if a[0].0 == k {
            } else {
                assert forall|j: int| 0 <= j < a.drop_first().len() implies a.drop_first()[j].0
                    == b.drop_first()[j].0 by {
                    assert(a.drop_first()[j] == a[j + 1]);
                    assert(b.drop_first()[j] == b[j + 1]);
                }
                assert forall|j: int|
                    0 <= j < a.drop_first().len() && a.drop_first()[j].0 == k implies a
                    .drop_first()[j].1 == b.drop_first()[j].1 by {
                    assert(a.drop_first()[j] == a[j + 1]);
                    assert(b.drop_first()[j] == b[j + 1]);
                }
                if b.len() == a.len() + 1 {
                    assert(b.drop_first().last() == b.last());
                }
                Self::lemma_get_unaffected(a.drop_first(), b.drop_first(), k);
            }
        }
    }

    /// Whether every entry of `filter` is present with an equal value.
    pub fn matches(&self, filter: &PropMap) -> (r: bool)
        ensures
            r == prop_matches(self@, filter@),
    {
        let n = filter.pairs.len();
        let mut i: usize = 0;
        while i < n
            invariant
                n == filter@.len(),
                i <= n,
                forall|j: int|
                    0 <= j < i ==> prop_get(self@, #[trigger] filter@[j].0) == Some(filter@[j].1),
            decreases n - i,
        {
            assert(filter@[i as int] == (filter.pairs@[i as int].0@, filter.pairs@[i as int].1@));
            match self.get(&filter.pairs[i].0) {
                Some(v) => {
                    if !(*v == filter.pairs[i].1) {
                        assert(prop_get(self@, filter@[i as int].0) != Some(filter@[i as int].1));
                        return false;
                    }
                },
                None => {
                    assert(prop_get(self@, filter@[i as int].0) != Some(filter@[i as int].1));
                    return false;
                },
            }
            i += 1;
        }
        true
    }

    /// A copy with the same entries in the same order.
    pub fn duplicate(&self) -> (r: PropMap)
        ensures
            r@ == self@,
    {
        let n = self.pairs.len();
        let mut pairs: Vec<(String, String)> = Vec::new();
        let mut i: usize = 0;
        while i < n
            invariant
                n == self.pairs@.len(),
                i <= n,
                pairs@.len() == i,
                forall|j: int| 0 <= j < i ==> pairs@[j] == self.pairs@[j],
            decreases n - i,
        {
            let k = self.pairs[i].0.clone();
            let v = self.pairs[i].1.clone();
            pairs.push((k, v));
            i += 1;
        }
        let r = PropMap { pairs };
        assert(r@ =~= self@);
        r
    }
}

} // verus!
