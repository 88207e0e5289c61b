//! Small association maps with last-write-wins insertion, used as the
//! result of decoding a store: one keyed by byte spans, one by strings.

use vstd::prelude::*;

use crate::bytes::bytes_eq;

verus! {

/// The mapping that a sequence of key-value pairs denotes when the
/// pairs are inserted in order: a later pair with the same key
/// overwrites an earlier one.
pub open spec fn pairs_to_map<K, V>(ps: Seq<(K, V)>) -> Map<K, V>
    decreases ps.len(),
{
    if ps.len() == 0 {
        Map::empty()
    } else {
        pairs_to_map(ps.drop_last()).insert(ps.last().0, ps.last().1)
    }
}

/// Whether the keys of `ps` are pairwise distinct.
pub open spec fn keys_unique<K, V>(ps: Seq<(K, V)>) -> bool {
    forall|i: int, j: int|
        #![trigger ps[i].0, ps[j].0]
        0 <= i < j < ps.len() ==> ps[i].0 != ps[j].0
}

proof fn lemma_pairs_to_map_dom<K, V>(ps: Seq<(K, V)>)
    ensures
        forall|k: K|
            #[trigger] pairs_to_map(ps).contains_key(k) <==> exists|i: int|
                0 <= i < ps.len() && ps[i].0 == k,
    decreases ps.len(),
{
    if ps.len() == 0 {
    } else {
        lemma_pairs_to_map_dom(ps.drop_last());
        assert forall|k: K| #[trigger] pairs_to_map(ps).contains_key(k) implies exists|i: int|
            0 <= i < ps.len() && ps[i].0 == k by {
            if k == ps.last().0 {
                assert(ps[ps.len() - 1].0 == k);
            } else {
                assert(pairs_to_map(ps.drop_last()).contains_key(k));
                let i = choose|i: int| 0 <= i < ps.drop_last().len() && ps.drop_last()[i].0 == k;
                assert(ps[i].0 == k);
            }
        }
        assert forall|k: K| (exists|i: int| 0 <= i < ps.len() && ps[i].0 == k) implies #[trigger]
        pairs_to_map(ps).contains_key(k) by {
            let i = choose|i: int| 0 <= i < ps.len() && ps[i].0 == k;
            if i == ps.len() - 1 {
                assert(pairs_to_map(ps).contains_key(ps.last().0));
            } else {
                assert(ps.drop_last()[i].0 == k);
                assert(pairs_to_map(ps.drop_last()).contains_key(k));
            }
        }
    }
}

proof fn lemma_pairs_to_map_len<K, V>(ps: Seq<(K, V)>)
    requires
        keys_unique(ps),
    ensures
        pairs_to_map(ps).dom().finite(),
        pairs_to_map(ps).len() == ps.len(),
    decreases ps.len(),
{
    if ps.len() == 0 {
        assert(pairs_to_map(ps).dom() =~= Set::empty());
    } else {
        let dl = ps.drop_last();
        assert(keys_unique(dl)) by {
            assert(forall|i: int| 0 <= i < dl.len() ==> dl[i] == ps[i]);
        }
        lemma_pairs_to_map_len(dl);
        lemma_pairs_to_map_dom(dl);
        assert(!pairs_to_map(dl).contains_key(ps.last().0)) by {
            if pairs_to_map(dl).contains_key(ps.last().0) {
                let i = choose|i: int| 0 <= i < dl.len() && dl[i].0 == ps.last().0;
                assert(ps[i].0 == ps[ps.len() - 1].0);
            }
        }
        assert(pairs_to_map(ps).dom() =~= pairs_to_map(dl).dom().insert(ps.last().0));
    }
}

proof fn lemma_pairs_to_map_at<K, V>(ps: Seq<(K, V)>, i: int)
    requires
        keys_unique(ps),
        0 <= i < ps.len(),
    ensures
        pairs_to_map(ps).contains_key(ps[i].0),
        pairs_to_map(ps)[ps[i].0] == ps[i].1,
    decreases ps.len(),
{
    lemma_pairs_to_map_dom(ps);
    if i == ps.len() - 1 {
        assert(pairs_to_map(ps)[ps.last().0] == ps.last().1);
    } else {
        let dl = ps.drop_last();
        assert(keys_unique(dl)) by {
            assert(forall|j: int| 0 <= j < dl.len() ==> dl[j] == ps[j]);
        }
        lemma_pairs_to_map_at(dl, i);
        assert(ps[i].0 != ps.last().0);
        assert(pairs_to_map(ps)[ps[i].0] == pairs_to_map(dl)[dl[i].0]);
    }
}

proof fn lemma_pairs_to_map_update<K, V>(ps: Seq<(K, V)>, j: int, v: V)
    requires
        keys_unique(ps),
        0 <= j < ps.len(),
    ensures
        pairs_to_map(ps.update(j, (ps[j].0, v))) == pairs_to_map(ps).insert(ps[j].0, v),
    decreases ps.len(),
{
    let q = ps.update(j, (ps[j].0, v));
    if j == ps.len() - 1 {
        assert(q.drop_last() =~= ps.drop_last());
        assert(q.last() == (ps[j].0, v));
        assert(pairs_to_map(q) =~= pairs_to_map(ps).insert(ps[j].0, v));
    } else {
        let dl = ps.drop_last();
        assert(keys_unique(dl)) by {
            assert(forall|i: int| 0 <= i < dl.len() ==> dl[i] == ps[i]);
        }
        assert(q.drop_last() =~= dl.update(j, (ps[j].0, v)));
        assert(q.last() == ps.last());
        lemma_pairs_to_map_update(dl, j, v);
        assert(dl[j] == ps[j]);
        assert(ps[j].0 != ps.last().0);
        assert(pairs_to_map(q) =~= pairs_to_map(ps).insert(ps[j].0, v));
    }
}

/// A byte-span-keyed mapping over a caller-owned buffer: the entries
/// borrow their key and value spans and are never copied.
pub struct StoreMap<'a> {
    entries: Vec<(&'a [u8], &'a [u8])>,
}

impl<'a> StoreMap<'a> {
    /// The key-value pairs held, as views.
    pub closed spec fn pairs(&self) -> Seq<(Seq<u8>, Seq<u8>)> {
        self.entries@.map_values(|e: (&'a [u8], &'a [u8])| (e.0@, e.1@))
    }

    /// Well-formedness: no two entries share a key.
    pub closed spec fn wf(&self) -> bool {
        keys_unique(self.pairs())
    }

    /// An empty mapping.
    pub fn new() -> (r: StoreMap<'a>)
        ensures
            r.wf(),
            r@ =~= Map::<Seq<u8>, Seq<u8>>::empty(),
    {
        let r = StoreMap { entries: Vec::new() };
        proof {
            assert(r.pairs() =~= Seq::<(Seq<u8>, Seq<u8>)>::empty());
        }
        r
    }

    /// Insert a pair; an entry already keyed by `k` is overwritten.
    pub fn insert(&mut self, k: &'a [u8], v: &'a [u8])
        requires
            old(self).wf(),
        ensures
            final(self).wf(),
            final(self)@ == old(self)@.insert(k@, v@),
    {
        let n = self.entries.len();
        let mut j: usize = 0;
        while j < n
            invariant
                self == old(self),
                n == self.entries@.len(),
                0 <= j <= n,
                old(self).wf(),
                forall|l: int| 0 <= l < j ==> old(self).pairs()[l].0 != k@,
            decreases n - j,
        {
            if bytes_eq(self.entries[j].0, k) {
                proof {
                    assert(old(self).pairs()[j as int].0 == k@);
                    lemma_pairs_to_map_update(old(self).pairs(), j as int, v@);
                }
                self.entries[j] = (k, v);
                proof {
                    assert(self.pairs() =~= old(self).pairs().update(j as int, (k@, v@)));
                    assert(self@ == old(self)@.insert(k@, v@));
                }
                return ;
            }
            j += 1;
        }
        self.entries.push((k, v));
        proof {
            assert(self.pairs() =~= old(self).pairs().push((k@, v@)));
            assert(self.pairs().drop_last() =~= old(self).pairs());
            assert(self@ == old(self)@.insert(k@, v@));
        }
    }

    /// Look a key up; returns the span of the last value inserted
    /// under it.
    pub fn get(&self, key: &[u8]) -> (r: Option<&'a [u8]>)
        requires
            self.wf(),
        ensures
            match r {
                Some(v) => self@.contains_key(key@) && v@ == self@[key@],
                None => !self@.contains_key(key@),
            },
    {
        let n = self.entries.len();
        let mut j: usize = 0;
        while j < n
            invariant
                n == self.entries@.len(),
                0 <= j <= n,
                self.wf(),
                forall|l: int| 0 <= l < j ==> self.pairs()[l].0 != key@,
            decreases n - j,
        {
            if bytes_eq(self.entries[j].0, key) {
                proof {
                    assert(self.pairs()[j as int].0 == key@);
                    lemma_pairs_to_map_at(self.pairs(), j as int);
                }
                return Some(self.entries[j].1);
            }
            j += 1;
        }
        proof {
            lemma_pairs_to_map_dom(self.pairs());
            if self@.contains_key(key@) {
                let i = choose|i: int| 0 <= i < self.pairs().len() && self.pairs()[i].0 == key@;
                assert(self.pairs()[i].0 != key@);
            }
        }
        None
    }

    /// The number of distinct keys held.
    pub fn len(&self) -> (r: usize)
        requires
            self.wf(),
        ensures
            r == self@.len(),
    {
        proof {
            lemma_pairs_to_map_len(self.pairs());
        }
        self.entries.len()
    }
}

impl<'a> View for StoreMap<'a> {
    type V = Map<Seq<u8>, Seq<u8>>;

    closed spec fn view(&self) -> Map<Seq<u8>, Seq<u8>> {
        pairs_to_map(self.pairs())
    }
}

/// A string-keyed mapping with owned keys and values.
pub struct StringMap {
    keys: Vec<String>,
    vals: Vec<String>,
}

impl StringMap {
    /// The key-value pairs held, as views, in insertion order.
    pub closed spec fn pairs(&self) -> Seq<(Seq<char>, Seq<char>)> {
        Seq::new(self.keys@.len(), |i: int| (self.keys@[i]@, self.vals@[i]@))
    }

    /// Well-formedness: as many values as keys, no two entries sharing
    /// a key.
    pub closed spec fn wf(&self) -> bool {
        self.keys@.len() == self.vals@.len() && keys_unique(self.pairs())
    }

    /// An empty mapping.
    pub fn new() -> (r: StringMap)
        ensures
            r.wf(),
            r@ =~= Map::<Seq<char>, Seq<char>>::empty(),
    {
        let r = StringMap { keys: Vec::new(), vals: Vec::new() };
        proof {
            assert(r.pairs() =~= Seq::<(Seq<char>, Seq<char>)>::empty());
        }
        r
    }

    /// Insert a pair; an entry already keyed by `k` is overwritten.
    pub fn insert(&mut self, k: String, v: String)
        requires
            old(self).wf(),
        ensures
            final(self).wf(),
            final(self)@ == old(self)@.insert(k@, v@),
    {
        let n = self.keys.len();
        let mut j: usize = 0;
        while j < n
            invariant
                self == old(self),
                n == self.keys@.len(),
                0 <= j <= n,
                old(self).wf(),
                forall|l: int| 0 <= l < j ==> old(self).pairs()[l].0 != k@,
            decreases n - j,
        {
            if self.keys[j] == k {
                proof {
                    assert(old(self).pairs()[j as int].0 == k@);
                    lemma_pairs_to_map_update(old(self).pairs(), j as int, v@);
                }
                self.vals[j] = v;
                proof {
                    assert(self.pairs() =~= old(self).pairs().update(j as int, (k@, v@)));
                    assert(self@ == old(self)@.insert(k@, v@));
                }
                return ;
            }
            j += 1;
        }
        self.keys.push(k);
        self.vals.push(v);
        proof {
            assert(self.pairs() =~= old(self).pairs().push((k@, v@)));
            assert(self.pairs().drop_last() =~= old(self).pairs());
            assert(self@ == old(self)@.insert(k@, v@));
        }
    }

    /// Look a key up; returns the last value inserted under it.
    pub fn get<'s>(&'s self, key: &String) -> (r: Option<&'s String>)
        requires
            self.wf(),
        ensures
            match r {
                Some(v) => self@.contains_key(key@) && v@ == self@[key@],
                None => !self@.contains_key(key@),
            },
    {
        let n = self.keys.len();
        let mut j: usize = 0;
        while j < n
            invariant
                n == self.keys@.len(),
                0 <= j <= n,
                self.wf(),
                forall|l: int| 0 <= l < j ==> self.pairs()[l].0 != key@,
            decreases n - j,
        {
            if self.keys[j] == *key {
                proof {
                    assert(self.pairs()[j as int].0 == key@);
                    lemma_pairs_to_map_at(self.pairs(), j as int);
                }
                return Some(&self.vals[j]);
            }
            j += 1;
        }
        proof {
            lemma_pairs_to_map_dom(self.pairs());
            if self@.contains_key(key@) {
                let i = choose|i: int| 0 <= i < self.pairs().len() && self.pairs()[i].0 == key@;
                assert(self.pairs()[i].0 != key@);
            }
        }
        None
    }

    /// The number of distinct keys held.
    pub fn len(&self) -> (r: usize)
        requires
            self.wf(),
        ensures
            r == self@.len(),
    {
        proof {
            lemma_pairs_to_map_len(self.pairs());
        }
        self.keys.len()
    }
}

impl View for StringMap {
    type V = Map<Seq<char>, Seq<char>>;

    closed spec fn view(&self) -> Map<Seq<char>, Seq<char>> {
        pairs_to_map(self.pairs())
    }
}

} // verus!
