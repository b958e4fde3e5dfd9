//! The weighted-edge aggregator: counts how often each unordered author pair
//! occurs in an edge list.
use vstd::prelude::*;
use vstd::hash_map::StringHashMap;
use crate::edges::same_pair;
use crate::text::{
    int_text, lemma_split_len, lemma_split_pieces, push_chars, push_str, split,
    split_text, string_of, u64_text,
};

verus! {

/// The index key of a stored pair: `a,b`.
pub open spec fn pair_key(a: Seq<char>, b: Seq<char>) -> Seq<char> {
    a + seq![','] + b
}

proof fn lemma_pair_key_injective(a: Seq<char>, b: Seq<char>, c: Seq<char>, d: Seq<char>)
    requires
        !a.contains(','),
        !c.contains(','),
        pair_key(a, b) == pair_key(c, d),
    ensures
        a == c,
        b == d,
{
    let k = pair_key(a, b);
    if a.len() < c.len() {
        assert(k[a.len() as int] == ',');
        assert(k[a.len() as int] == c[a.len() as int]);
        assert(c.contains(','));
    } else if c.len() < a.len() {
        assert(k[c.len() as int] == ',');
        assert(k[c.len() as int] == a[c.len() as int]);
        assert(a.contains(','));
    }
    assert(a =~= k.take(a.len() as int));
    assert(c =~= k.take(c.len() as int));
    assert(b =~= k.skip(a.len() as int + 1));
    assert(d =~= k.skip(c.len() as int + 1));
}

/// Pair counts, in the order in which each pair was first seen. A pair is
/// stored in the orientation of its first occurrence.
pub struct EdgeWeights {
    index: StringHashMap<usize>,
    pairs: Vec<(String, String)>,
    counts: Vec<u64>,
    total: u64,
}

impl EdgeWeights {
    /// The stored pairs.
    pub closed spec fn pairs(&self) -> Seq<(Seq<char>, Seq<char>)> {
        self.pairs@.map_values(|p: (String, String)| (p.0@, p.1@))
    }

    /// The count of each stored pair.
    pub closed spec fn counts(&self) -> Seq<nat> {
        self.counts@.map_values(|c: u64| c as nat)
    }

    /// How many pairs were counted in all.
    pub closed spec fn counted(&self) -> nat {
        self.total as nat
    }

    pub closed spec fn wf(&self) -> bool {
        &&& self.pairs@.len() == self.counts@.len()
        &&& forall|i: int|
            0 <= i < self.pairs@.len() ==> !(#[trigger] self.pairs@[i]).0@.contains(',')
                && !self.pairs@[i].1@.contains(',')
        &&& forall|i: int, j: int|
            0 <= i < j < self.pairs@.len() ==> !same_pair(
                #[trigger] self.pairs()[i],
                #[trigger] self.pairs()[j],
            )
        &&& forall|i: int|
            0 <= i < self.pairs@.len() ==> #[trigger] self.index@.contains_key(
                pair_key(self.pairs@[i].0@, self.pairs@[i].1@),
            ) && self.index@[pair_key(self.pairs@[i].0@, self.pairs@[i].1@)] == i
        &&& forall|k: Seq<char>|
            #[trigger] self.index@.contains_key(k) ==> self.index@[k] < self.pairs@.len()
                && k == pair_key(self.pairs@[self.index@[k] as int].0@, self.pairs@[self.index@[k] as int].1@)
        &&& forall|i: int| 0 <= i < self.counts@.len() ==> #[trigger] self.counts@[i] <= self.total
    }

    pub fn new() -> (r: Self)
        ensures
            r.wf(),
            r.pairs() == Seq::<(Seq<char>, Seq<char>)>::empty(),
            r.counts() == Seq::<nat>::empty(),
            r.counted() == 0,
    {
        let r = EdgeWeights { index: StringHashMap::new(), pairs: Vec::new(), counts: Vec::new(), total: 0 };
        assert(r.pairs() =~= Seq::<(Seq<char>, Seq<char>)>::empty());
        assert(r.counts() =~= Seq::<nat>::empty());
        r
    }

    pub fn total(&self) -> (r: u64)
        ensures
            r == self.counted(),
    {
        self.total
    }

    fn key_of(a: &String, b: &String) -> (r: String)
        ensures
            r@ == pair_key(a@, b@),
    {
        let mut k: Vec<char> = Vec::new();
        push_str(&mut k, a.as_str());
        k.push(',');
        push_str(&mut k, b.as_str());
        assert(k@ =~= pair_key(a@, b@));
        string_of(k.as_slice())
    }

    /// Counts one occurrence of the unordered pair `{a, b}`.
    fn add_pair(&mut self, a: String, b: String)
        requires
            old(self).wf(),
            old(self).counted() < u64::MAX,
            !a@.contains(','),
            !b@.contains(','),
        ensures
            final(self).wf(),
            final(self).counted() == old(self).counted() + 1,
            (exists|i: int| 0 <= i < old(self).pairs().len() && same_pair(#[trigger] old(self).pairs()[i], (a@, b@)))
                ==> final(self).pairs() == old(self).pairs() && forall|i: int|
                0 <= i < old(self).pairs().len() && same_pair(#[trigger] old(self).pairs()[i], (a@, b@))
                    ==> final(self).counts() == old(self).counts().update(i, old(self).counts()[i] + 1),
            !(exists|i: int| 0 <= i < old(self).pairs().len() && same_pair(#[trigger] old(self).pairs()[i], (a@, b@)))
                ==> final(self).pairs() == old(self).pairs().push((a@, b@)) && final(self).counts()
                == old(self).counts().push(1),
    {
        let k1 = Self::key_of(&a, &b);
        let k2 = Self::key_of(&b, &a);
        let found = match self.index.get(k1.as_str()) {
            Some(i) => Some(*i),
            None => match self.index.get(k2.as_str()) {
                Some(i) => Some(*i),
                None => None,
            },
        };
        let ghost op = old(self).pairs();
        let ghost oc = old(self).counts();
        match found {
            Some(i) => {
                proof {
                    let p = self.pairs@[i as int];
                    if self.index@.contains_key(k1@) && self.index@[k1@] == i {
                        lemma_pair_key_injective(a@, b@, p.0@, p.1@);
                    } else {
                        lemma_pair_key_injective(b@, a@, p.0@, p.1@);
                    }
                    assert(op[i as int] == (p.0@, p.1@));
                    assert(same_pair(op[i as int], (a@, b@)));
                    assert forall|j: int| 0 <= j < op.len() && same_pair(#[trigger] op[j], (a@, b@)) implies j == i by {
                        if j != i {
                            if j < i {
                                assert(!same_pair(op[j], op[i as int]));
                            } else {
                                assert(!same_pair(op[i as int], op[j]));
                            }
                        }
                    }
                }
                let c = self.counts[i];
                self.counts.set(i, c + 1);
                self.total = self.total + 1;
                assert(self.counts() =~= oc.update(i as int, oc[i as int] + 1));
                assert(self.pairs() =~= op);
            },
            None => {
                proof {
                    assert forall|j: int| 0 <= j < op.len() implies !same_pair(#[trigger] op[j], (a@, b@)) by {
                        let p = self.pairs@[j];
                        assert(op[j] == (p.0@, p.1@));
                        if op[j] == (a@, b@) {
                            assert(self.index@.contains_key(pair_key(p.0@, p.1@)));
                        } else if op[j] == (b@, a@) {
                            assert(self.index@.contains_key(pair_key(p.0@, p.1@)));
                        }
                    }
                }
                let n = self.pairs.len();
                let ghost old_index = self.index@;
                self.index.insert(k1, n);
                self.pairs.push((a, b));
                self.counts.push(1);
                self.total = self.total + 1;
                assert(self.pairs() =~= op.push((a@, b@)));
                assert(self.counts() =~= oc.push(1));
                assert forall|i: int, j: int| 0 <= i < j < self.pairs@.len() implies !same_pair(
                    #[trigger] self.pairs()[i],
                    #[trigger] self.pairs()[j],
                ) by {
                    if j == n {
                        assert(self.pairs()[j] == (a@, b@));
                        assert(self.pairs()[i] == op[i]);
                    } else {
                        assert(self.pairs()[i] == op[i]);
                        assert(self.pairs()[j] == op[j]);
                    }
                }
                assert forall|i: int| 0 <= i < self.pairs@.len() implies #[trigger] self.index@.contains_key(
                    pair_key(self.pairs@[i].0@, self.pairs@[i].1@),
                ) && self.index@[pair_key(self.pairs@[i].0@, self.pairs@[i].1@)] == i by {
                    if i < n {
                        let q = self.pairs@[i];
                        assert(old_index.contains_key(pair_key(q.0@, q.1@)));
                        if pair_key(q.0@, q.1@) == k1@ {
                            assert(old_index.contains_key(k1@));
                        }
                    }
                }
            },
        }
    }

    /// Counts the pair of one edge-list line `year,work,author-a,author-b`.
    /// A line with fewer than four fields is passed over and `false`
    /// returned.
    pub fn add_line(&mut self, line: &str) -> (r: bool)
        requires
            old(self).wf(),
            old(self).counted() < u64::MAX,
        ensures
            final(self).wf(),
            r == (split(line@, ',').len() >= 4),
            !r ==> *final(self) == *old(self),
            r ==> ({
                let a = split(line@, ',')[2];
                let b = split(line@, ',')[3];
                &&& final(self).counted() == old(self).counted() + 1
                &&& (exists|i: int| 0 <= i < old(self).pairs().len() && same_pair(#[trigger] old(self).pairs()[i], (a, b)))
                    ==> final(self).pairs() == old(self).pairs() && forall|i: int|
                    0 <= i < old(self).pairs().len() && same_pair(#[trigger] old(self).pairs()[i], (a, b))
                        ==> final(self).counts() == old(self).counts().update(i, old(self).counts()[i] + 1)
                &&& !(exists|i: int| 0 <= i < old(self).pairs().len() && same_pair(#[trigger] old(self).pairs()[i], (a, b)))
                    ==> final(self).pairs() == old(self).pairs().push((a, b)) && final(self).counts()
                    == old(self).counts().push(1)
            }),
    {
        let fields = split_text(line, ',');
        proof {
            lemma_split_pieces(line@, ',');
        }
        if fields.len() < 4 {
            return false;
        }
        let a = string_of(fields[2].as_slice());
        let b = string_of(fields[3].as_slice());
        assert(a@ == split(line@, ',')[2]);
        assert(b@ == split(line@, ',')[3]);
        self.add_pair(a, b);
        true
    }

    /// One output line `author-a,author-b,count` per stored pair, in order.
    pub fn lines(&self) -> (r: Vec<String>)
        requires
            self.wf(),
        ensures
            r@.len() == self.pairs().len(),
            forall|i: int|
                0 <= i < r@.len() ==> (#[trigger] r@[i])@ == self.pairs()[i].0 + seq![',']
                    + self.pairs()[i].1 + seq![','] + int_text(self.counts()[i] as int),
    {
        let mut r: Vec<String> = Vec::new();
        let mut i: usize = 0;
        while i < self.pairs.len()
            invariant
                self.wf(),
                0 <= i <= self.pairs@.len(),
                r@.len() == i,
                forall|j: int|
                    0 <= j < i ==> (#[trigger] r@[j])@ == self.pairs()[j].0 + seq![',']
                        + self.pairs()[j].1 + seq![','] + int_text(self.counts()[j] as int),
            decreases self.pairs.len() - i,
        {
            let mut out: Vec<char> = Vec::new();
            push_str(&mut out, self.pairs[i].0.as_str());
            out.push(',');
            push_str(&mut out, self.pairs[i].1.as_str());
            out.push(',');
            let n = u64_text(self.counts[i]);
            push_chars(&mut out, &n);
            assert(out@ =~= self.pairs()[i as int].0 + seq![','] + self.pairs()[i as int].1 + seq![',']
                + int_text(self.counts()[i as int] as int));
            r.push(string_of(out.as_slice()));
            i = i + 1;
        }
        r
    }
}

/// The name of the weighted output for an edge-list path: `weighted_`
/// followed by the path's last `/`-separated component.
pub fn weighted_file_name(path: &str) -> (r: String)
    ensures
        r@ == "weighted_"@ + split(path@, '/').last(),
{
    let parts = split_text(path, '/');
    proof {
        lemma_split_len(path@, '/');
    }
    let mut out: Vec<char> = Vec::new();
    push_str(&mut out, "weighted_");
    push_chars(&mut out, &parts[parts.len() - 1]);
    string_of(out.as_slice())
}

} // verus!
