//! Keyed accumulators: counters and sets that remember the order in which
//! their keys were first seen, so that what they hold can be listed
//! deterministically.
use vstd::prelude::*;
use vstd::hash_map::{HashMapWithView, StringHashMap};
use crate::work::texts;

verus! {

/// The count of `k` in `m`, 0 where `m` has none.
pub open spec fn count_of<K>(m: Map<K, nat>, k: K) -> nat {
    if m.contains_key(k) {
        m[k]
    } else {
        0
    }
}

/// `m` with `n` more counted for `k`.
pub open spec fn count_in<K>(m: Map<K, nat>, k: K, n: nat) -> Map<K, nat> {
    m.insert(k, count_of(m, k) + n)
}

/// `m` with one more counted for each element of `ks`.
pub open spec fn count_each<K>(m: Map<K, nat>, ks: Seq<K>) -> Map<K, nat>
    decreases ks.len(),
{
    if ks.len() == 0 {
        m
    } else {
        count_in(count_each(m, ks.drop_last()), ks.last(), 1)
    }
}

/// The sum of two counters, key by key.
pub open spec fn sum_counts<K>(a: Map<K, nat>, b: Map<K, nat>) -> Map<K, nat> {
    Map::new(|k: K| a.contains_key(k) || b.contains_key(k), |k: K| count_of(a, k) + count_of(b, k))
}

/// The set held for `k`, empty where there is none.
pub open spec fn set_of<K, A>(m: Map<K, Set<A>>, k: K) -> Set<A> {
    if m.contains_key(k) {
        m[k]
    } else {
        Set::empty()
    }
}

/// The union of two keyed families of sets, key by key.
pub open spec fn union_sets<K, A>(a: Map<K, Set<A>>, b: Map<K, Set<A>>) -> Map<K, Set<A>> {
    Map::new(|k: K| a.contains_key(k) || b.contains_key(k), |k: K| set_of(a, k) + set_of(b, k))
}

proof fn lemma_push_fresh<A>(s: Seq<A>, a: A)
    requires
        s.no_duplicates(),
        !s.contains(a),
    ensures
        s.push(a).no_duplicates(),
        forall|x: A| s.push(a).contains(x) <==> (s.contains(x) || x == a),
{
    assert forall|x: A| s.push(a).contains(x) <==> (s.contains(x) || x == a) by {
        if s.contains(x) {
            let i = choose|i: int| 0 <= i < s.len() && s[i] == x;
            assert(s.push(a)[i] == x);
        }
        if x == a {
            assert(s.push(a)[s.len() as int] == a);
        }
        if s.push(a).contains(x) {
            let i = choose|i: int| 0 <= i < s.len() + 1 && s.push(a)[i] == x;
            if i < s.len() {
                assert(s[i] == x);
            }
        }
    }
    assert forall|i: int, j: int| 0 <= i < j < s.push(a).len() implies s.push(a)[i] != s.push(a)[j] by {
        if j == s.len() {
            assert(s.contains(s[i]));
        }
    }
}

/// A counter keyed by text.
pub struct TextTally {
    map: StringHashMap<u64>,
    keys: Vec<String>,
}

impl TextTally {
    /// The keys, in the order they were first counted.
    pub closed spec fn keys(&self) -> Seq<Seq<char>> {
        texts(self.keys@)
    }

    pub closed spec fn counts(&self) -> Map<Seq<char>, nat> {
        Map::new(|k: Seq<char>| self.map@.contains_key(k), |k: Seq<char>| self.map@[k] as nat)
    }

    pub closed spec fn wf(&self) -> bool {
        &&& self.keys().no_duplicates()
        &&& forall|k: Seq<char>| self.map@.contains_key(k) <==> self.keys().contains(k)
    }

    pub fn new() -> (r: Self)
        ensures
            r.wf(),
            r.keys() == Seq::<Seq<char>>::empty(),
            r.counts() == Map::<Seq<char>, nat>::empty(),
    {
        let r = TextTally { map: StringHashMap::new(), keys: Vec::new() };
        assert(r.keys() =~= Seq::<Seq<char>>::empty());
        assert(r.counts() =~= Map::<Seq<char>, nat>::empty());
        r
    }

    /// The keys are those counted, each once.
    pub proof fn lemma_keys(&self)
        requires
            self.wf(),
        ensures
            self.keys().no_duplicates(),
            forall|k: Seq<char>| self.counts().contains_key(k) <==> self.keys().contains(k),
    {
    }

    pub fn len(&self) -> (r: usize)
        ensures
            r == self.keys().len(),
    {
        self.keys.len()
    }

    pub fn key(&self, i: usize) -> (r: &String)
        requires
            i < self.keys().len(),
        ensures
            r@ == self.keys()[i as int],
    {
        &self.keys[i]
    }

    pub fn get(&self, k: &str) -> (r: u64)
        ensures
            r == count_of(self.counts(), k@),
    {
        match self.map.get(k) {
            Some(n) => *n,
            None => 0,
        }
    }

    /// Counts `n` more for `k`.
    pub fn add(&mut self, k: &String, n: u64)
        requires
            old(self).wf(),
            count_of(old(self).counts(), k@) + n <= u64::MAX,
        ensures
            final(self).wf(),
            final(self).counts() == count_in(old(self).counts(), k@, n as nat),
            final(self).keys() == if old(self).keys().contains(k@) {
                old(self).keys()
            } else {
                old(self).keys().push(k@)
            },
    {
        let c = self.get(k.as_str());
        let had = self.map.contains_key(k.as_str());
        self.map.insert(k.clone(), c + n);
        if !had {
            let ghost before = self.keys@;
            self.keys.push(k.clone());
            assert(self.keys() =~= texts(before).push(k@));
            proof {
                lemma_push_fresh(texts(before), k@);
            }
        }
        assert forall|x: Seq<char>| self.map@.contains_key(x) <==> self.keys().contains(x) by {
            assert(old(self).map@.contains_key(x) <==> old(self).keys().contains(x));
        }
        assert(self.counts() =~= count_in(old(self).counts(), k@, n as nat));
    }
}

/// A counter keyed by number.
pub struct NumTally {
    map: HashMapWithView<u64, u64>,
    keys: Vec<u64>,
}

impl NumTally {
    pub closed spec fn keys(&self) -> Seq<u64> {
        self.keys@
    }

    pub closed spec fn counts(&self) -> Map<u64, nat> {
        Map::new(|k: u64| self.map@.contains_key(k), |k: u64| self.map@[k] as nat)
    }

    pub closed spec fn wf(&self) -> bool {
        &&& self.keys().no_duplicates()
        &&& forall|k: u64| self.map@.contains_key(k) <==> self.keys().contains(k)
    }

    pub fn new() -> (r: Self)
        ensures
            r.wf(),
            r.keys() == Seq::<u64>::empty(),
            r.counts() == Map::<u64, nat>::empty(),
    {
        broadcast use vstd::std_specs::hash::axiom_u64_obeys_hash_table_key_model;

        let r = NumTally { map: HashMapWithView::new(), keys: Vec::new() };
        assert(r.counts() =~= Map::<u64, nat>::empty());
        r
    }

    /// The keys are those counted, each once.
    pub proof fn lemma_keys(&self)
        requires
            self.wf(),
        ensures
            self.keys().no_duplicates(),
            forall|k: u64| self.counts().contains_key(k) <==> self.keys().contains(k),
    {
    }

    pub fn len(&self) -> (r: usize)
        ensures
            r == self.keys().len(),
    {
        self.keys.len()
    }

    pub fn key(&self, i: usize) -> (r: u64)
        requires
            i < self.keys().len(),
        ensures
            r == self.keys()[i as int],
    {
        self.keys[i]
    }

    pub fn get(&self, k: u64) -> (r: u64)
        ensures
            r == count_of(self.counts(), k),
    {
        match self.map.get(&k) {
            Some(n) => *n,
            None => 0,
        }
    }

    /// Counts `n` more for `k`.
    pub fn add(&mut self, k: u64, n: u64)
        requires
            old(self).wf(),
            count_of(old(self).counts(), k) + n <= u64::MAX,
        ensures
            final(self).wf(),
            final(self).counts() == count_in(old(self).counts(), k, n as nat),
            final(self).keys() == if old(self).keys().contains(k) {
                old(self).keys()
            } else {
                old(self).keys().push(k)
            },
    {
        let c = self.get(k);
        let had = self.map.contains_key(&k);
        self.map.insert(k, c + n);
        if !had {
            proof {
                lemma_push_fresh(self.keys@, k);
            }
            self.keys.push(k);
        }
        assert forall|x: u64| self.map@.contains_key(x) <==> self.keys().contains(x) by {
            assert(old(self).map@.contains_key(x) <==> old(self).keys().contains(x));
        }
        assert(self.counts() =~= count_in(old(self).counts(), k, n as nat));
    }
}

/// A set of texts.
pub struct TextSet {
    map: StringHashMap<()>,
    items: Vec<String>,
}

impl TextSet {
    /// The members, in the order they were first added.
    pub closed spec fn items(&self) -> Seq<Seq<char>> {
        texts(self.items@)
    }

    pub closed spec fn set(&self) -> Set<Seq<char>> {
        self.map@.dom()
    }

    pub closed spec fn wf(&self) -> bool {
        &&& self.items().no_duplicates()
        &&& forall|k: Seq<char>| self.map@.contains_key(k) <==> self.items().contains(k)
    }

    pub fn new() -> (r: Self)
        ensures
            r.wf(),
            r.set() == Set::<Seq<char>>::empty(),
            r.items().len() == 0,
    {
        let r = TextSet { map: StringHashMap::new(), items: Vec::new() };
        assert(r.set() =~= Set::<Seq<char>>::empty());
        r
    }

    pub fn len(&self) -> (r: usize)
        requires
            self.wf(),
        ensures
            r == self.set().len(),
    {
        proof {
            self.items().unique_seq_to_set();
            assert(self.items().to_set() =~= self.set());
        }
        self.items.len()
    }

    pub fn item(&self, i: usize) -> (r: &String)
        requires
            i < self.items().len(),
        ensures
            r@ == self.items()[i as int],
    {
        &self.items[i]
    }

    pub fn count(&self) -> (r: usize)
        ensures
            r == self.items().len(),
    {
        self.items.len()
    }

    pub fn insert(&mut self, k: &String)
        requires
            old(self).wf(),
        ensures
            final(self).wf(),
            final(self).set() == old(self).set().insert(k@),
    {
        if !self.map.contains_key(k.as_str()) {
            self.map.insert(k.clone(), ());
            let ghost before = self.items@;
            self.items.push(k.clone());
            assert(self.items() =~= texts(before).push(k@));
            proof {
                lemma_push_fresh(texts(before), k@);
            }
        }
        assert forall|x: Seq<char>| self.map@.contains_key(x) <==> self.items().contains(x) by {
            assert(old(self).map@.contains_key(x) <==> old(self).items().contains(x));
        }
        assert(self.set() =~= old(self).set().insert(k@));
    }

    /// Adds every member of `other`.
    pub fn union_with(&mut self, other: &TextSet)
        requires
            old(self).wf(),
            other.wf(),
        ensures
            final(self).wf(),
            final(self).set() == old(self).set() + other.set(),
    {
        let mut i: usize = 0;
        while i < other.items.len()
            invariant
                self.wf(),
                other.wf(),
                0 <= i <= other.items@.len(),
                self.set() == old(self).set() + other.items().take(i as int).to_set(),
            decreases other.items.len() - i,
        {
            self.insert(&other.items[i]);
            assert(other.items().take(i + 1).to_set() =~= other.items().take(i as int).to_set().insert(
                other.items()[i as int],
            )) by {
                assert(other.items().take(i + 1) =~= other.items().take(i as int).push(other.items()[i as int]));
                other.items().take(i as int).lemma_push_to_set_commute(other.items()[i as int]);
            }
            i = i + 1;
        }
        assert(other.items().take(other.items@.len() as int) =~= other.items());
        assert(other.items().to_set() =~= other.set());
        assert(self.set() =~= old(self).set() + other.set());
    }
}

/// A set of texts for each year.
pub struct YearSets {
    map: HashMapWithView<u64, TextSet>,
    years: Vec<u64>,
}

impl YearSets {
    pub closed spec fn years(&self) -> Seq<u64> {
        self.years@
    }

    pub closed spec fn sets(&self) -> Map<u64, Set<Seq<char>>> {
        Map::new(|y: u64| self.map@.contains_key(y), |y: u64| self.map@[y].set())
    }

    pub closed spec fn wf(&self) -> bool {
        &&& self.years().no_duplicates()
        &&& forall|y: u64| self.map@.contains_key(y) <==> self.years().contains(y)
        &&& forall|y: u64| #[trigger] self.map@.contains_key(y) ==> self.map@[y].wf()
    }

    pub fn new() -> (r: Self)
        ensures
            r.wf(),
            r.years() == Seq::<u64>::empty(),
            r.sets() == Map::<u64, Set<Seq<char>>>::empty(),
    {
        broadcast use vstd::std_specs::hash::axiom_u64_obeys_hash_table_key_model;

        let r = YearSets { map: HashMapWithView::new(), years: Vec::new() };
        assert(r.sets() =~= Map::<u64, Set<Seq<char>>>::empty());
        r
    }

    /// The years are those that hold a set, each once.
    pub proof fn lemma_years(&self)
        requires
            self.wf(),
        ensures
            self.years().no_duplicates(),
            forall|y: u64| self.sets().contains_key(y) <==> self.years().contains(y),
    {
    }

    pub fn len(&self) -> (r: usize)
        ensures
            r == self.years().len(),
    {
        self.years.len()
    }

    pub fn year(&self, i: usize) -> (r: u64)
        requires
            i < self.years().len(),
        ensures
            r == self.years()[i as int],
    {
        self.years[i]
    }

    /// The number of members held for year `y`.
    pub fn size(&self, y: u64) -> (r: usize)
        requires
            self.wf(),
        ensures
            r == set_of(self.sets(), y).len(),
    {
        match self.map.get(&y) {
            Some(s) => s.len(),
            None => 0,
        }
    }

    /// Adds the members of `s` to the set of year `y`.
    pub fn add_all(&mut self, y: u64, s: &TextSet)
        requires
            old(self).wf(),
            s.wf(),
        ensures
            final(self).wf(),
            final(self).sets() == old(self).sets().insert(y, set_of(old(self).sets(), y) + s.set()),
            final(self).years() == if old(self).years().contains(y) {
                old(self).years()
            } else {
                old(self).years().push(y)
            },
    {
        let mut cur = match self.map.remove(&y) {
            Some(c) => c,
            None => {
                proof {
                    lemma_push_fresh(self.years@, y);
                }
                self.years.push(y);
                TextSet::new()
            },
        };
        cur.union_with(s);
        self.map.insert(y, cur);
        assert forall|x: u64| #[trigger] self.map@.contains_key(x) implies self.map@[x].wf() by {
            if x != y {
                assert(old(self).map@.contains_key(x));
            }
        }
        assert forall|x: u64| self.map@.contains_key(x) <==> self.years().contains(x) by {
            assert(old(self).map@.contains_key(x) <==> old(self).years().contains(x));
        }
        assert(self.sets() =~= old(self).sets().insert(y, set_of(old(self).sets(), y) + s.set()));
    }

    /// The set of year `y`, copied.
    pub fn get(&self, y: u64) -> (r: TextSet)
        requires
            self.wf(),
        ensures
            r.wf(),
            r.set() == set_of(self.sets(), y),
    {
        let mut r = TextSet::new();
        match self.map.get(&y) {
            Some(s) => {
                r.union_with(s);
                assert(r.set() =~= s.set());
            },
            None => {},
        }
        r
    }
}

} // verus!
