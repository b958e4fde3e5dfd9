//! The statistics accumulator: per-worker counts over works, their key-wise
//! merge, and the tables made from them.
use vstd::prelude::*;
use crate::tally::{
    count_each, count_in, count_of, set_of, sum_counts, union_sets, NumTally, TextSet, TextTally,
    YearSets,
};
use crate::text::{int_text, push_chars, replace_char, replace_text, string_of, u64_text};
use crate::work::{read_work, work_of_line, Work, WorkV};

verus! {

/// What an accumulator set holds.
pub struct StatsV {
    pub papers_per_year: Map<u64, nat>,
    pub authors_per_year: Map<u64, Set<Seq<char>>>,
    pub papers_per_author: Map<Seq<char>, nat>,
    pub paper_author_count: Map<u64, nat>,
    pub papers_per_topic: Map<Seq<char>, nat>,
    pub skipped: nat,
}

pub open spec fn empty_stats() -> StatsV {
    StatsV {
        papers_per_year: Map::empty(),
        authors_per_year: Map::empty(),
        papers_per_author: Map::empty(),
        paper_author_count: Map::empty(),
        papers_per_topic: Map::empty(),
        skipped: 0,
    }
}

/// The accumulators after one more work: its year counted, its authors
/// active in that year, each listed author counted, its number of authors
/// counted, and each listed topic counted.
pub open spec fn with_work(s: StatsV, w: WorkV) -> StatsV {
    StatsV {
        papers_per_year: count_in(s.papers_per_year, w.year, 1),
        authors_per_year: if w.authors.len() == 0 {
            s.authors_per_year
        } else {
            s.authors_per_year.insert(w.year, set_of(s.authors_per_year, w.year) + w.authors.to_set())
        },
        papers_per_author: count_each(s.papers_per_author, w.authors),
        paper_author_count: count_in(s.paper_author_count, w.authors.len() as u64, 1),
        papers_per_topic: count_each(s.papers_per_topic, w.topics),
        skipped: s.skipped,
    }
}

/// The accumulators after one record that was passed over.
pub open spec fn with_skip(s: StatsV) -> StatsV {
    StatsV { skipped: s.skipped + 1, ..s }
}

/// The key-wise reduction of two accumulator sets: counters add up, sets
/// unite.
pub open spec fn merged(a: StatsV, b: StatsV) -> StatsV {
    StatsV {
        papers_per_year: sum_counts(a.papers_per_year, b.papers_per_year),
        authors_per_year: union_sets(a.authors_per_year, b.authors_per_year),
        papers_per_author: sum_counts(a.papers_per_author, b.papers_per_author),
        paper_author_count: sum_counts(a.paper_author_count, b.paper_author_count),
        papers_per_topic: sum_counts(a.papers_per_topic, b.papers_per_topic),
        skipped: a.skipped + b.skipped,
    }
}

/// What one work costs the accumulators' capacity: one count for its year,
/// one for its number of authors, one per author and one per topic.
pub open spec fn work_cost(w: WorkV) -> nat {
    2 + w.authors.len() + w.topics.len()
}

/// Every count of `m` is at most `b`.
pub open spec fn bounded<K>(m: Map<K, nat>, b: nat) -> bool {
    forall|k: K| #[trigger] m.contains_key(k) ==> m[k] <= b
}

proof fn lemma_sum_counts_commutes<K>(a: Map<K, nat>, b: Map<K, nat>)
    ensures
        sum_counts(a, b) == sum_counts(b, a),
{
    assert(sum_counts(a, b) =~= sum_counts(b, a));
}

proof fn lemma_sum_counts_associates<K>(a: Map<K, nat>, b: Map<K, nat>, c: Map<K, nat>)
    ensures
        sum_counts(sum_counts(a, b), c) == sum_counts(a, sum_counts(b, c)),
{
    assert(sum_counts(sum_counts(a, b), c) =~= sum_counts(a, sum_counts(b, c)));
}

pub(crate) proof fn lemma_union_sets_commutes<K, A>(a: Map<K, Set<A>>, b: Map<K, Set<A>>)
    ensures
        union_sets(a, b) == union_sets(b, a),
{
    assert forall|k: K| union_sets(a, b).contains_key(k) implies union_sets(a, b)[k] == union_sets(b, a)[k] by {
        assert(set_of(a, k) + set_of(b, k) =~= set_of(b, k) + set_of(a, k));
    }
    assert(union_sets(a, b) =~= union_sets(b, a));
}

pub(crate) proof fn lemma_union_sets_associates<K, A>(a: Map<K, Set<A>>, b: Map<K, Set<A>>, c: Map<K, Set<A>>)
    ensures
        union_sets(union_sets(a, b), c) == union_sets(a, union_sets(b, c)),
{
    let l = union_sets(union_sets(a, b), c);
    let r = union_sets(a, union_sets(b, c));
    assert forall|k: K| l.contains_key(k) implies l[k] == r[k] by {
        assert(l[k] =~= r[k]);
    }
    assert(l =~= r);
}

/// Merging two workers' accumulators gives the same result in either order.
pub proof fn lemma_merge_commutative(a: StatsV, b: StatsV)
    ensures
        merged(a, b) == merged(b, a),
{
    lemma_sum_counts_commutes(a.papers_per_year, b.papers_per_year);
    lemma_union_sets_commutes(a.authors_per_year, b.authors_per_year);
    lemma_sum_counts_commutes(a.papers_per_author, b.papers_per_author);
    lemma_sum_counts_commutes(a.paper_author_count, b.paper_author_count);
    lemma_sum_counts_commutes(a.papers_per_topic, b.papers_per_topic);
}

/// Merging three workers' accumulators gives the same result whichever two
/// are merged first.
pub proof fn lemma_merge_associative(a: StatsV, b: StatsV, c: StatsV)
    ensures
        merged(merged(a, b), c) == merged(a, merged(b, c)),
{
    lemma_sum_counts_associates(a.papers_per_year, b.papers_per_year, c.papers_per_year);
    lemma_union_sets_associates(a.authors_per_year, b.authors_per_year, c.authors_per_year);
    lemma_sum_counts_associates(a.papers_per_author, b.papers_per_author, c.papers_per_author);
    lemma_sum_counts_associates(a.paper_author_count, b.paper_author_count, c.paper_author_count);
    lemma_sum_counts_associates(a.papers_per_topic, b.papers_per_topic, c.papers_per_topic);
}

/// `a` with `b`'s counts added for the keys in `ks`.
spec fn partial_sum<K>(a: Map<K, nat>, b: Map<K, nat>, ks: Seq<K>) -> Map<K, nat> {
    Map::new(
        |k: K| a.contains_key(k) || ks.contains(k),
        |k: K| count_of(a, k) + if ks.contains(k) {
            count_of(b, k)
        } else {
            0
        },
    )
}

/// `a` with `b`'s sets added for the keys in `ks`.
spec fn partial_union<K, A>(a: Map<K, Set<A>>, b: Map<K, Set<A>>, ks: Seq<K>) -> Map<K, Set<A>> {
    Map::new(
        |k: K| a.contains_key(k) || ks.contains(k),
        |k: K| set_of(a, k) + if ks.contains(k) {
            set_of(b, k)
        } else {
            Set::empty()
        },
    )
}

proof fn lemma_take_step<K>(ks: Seq<K>, i: int, x: K)
    requires
        0 <= i < ks.len(),
        ks.no_duplicates(),
    ensures
        ks.take(i + 1).contains(x) <==> (ks.take(i).contains(x) || x == ks[i]),
        !ks.take(i).contains(ks[i]),
{
    if ks.take(i).contains(ks[i]) {
        let j = choose|j: int| 0 <= j < i && ks.take(i)[j] == ks[i];
        assert(ks[j] == ks[i]);
    }
    let t = ks.take(i + 1);
    if t.contains(x) {
        let j = choose|j: int| 0 <= j < t.len() && t[j] == x;
        if j < i {
            assert(ks.take(i)[j] == x);
        }
    }
    if ks.take(i).contains(x) {
        let j = choose|j: int| 0 <= j < i && ks.take(i)[j] == x;
        assert(ks.take(i + 1)[j] == x);
    }
    if x == ks[i] {
        assert(ks.take(i + 1)[i] == x);
    }
}

proof fn lemma_partial_done<K>(ks: Seq<K>, dom: Set<K>)
    requires
        forall|k: K| dom.contains(k) <==> ks.contains(k),
    ensures
        forall|k: K| dom.contains(k) <==> ks.take(ks.len() as int).contains(k),
{
    assert(ks.take(ks.len() as int) =~= ks);
}

fn merge_text_tally(t: &mut TextTally, o: &TextTally, Ghost(bt): Ghost<nat>, Ghost(bo): Ghost<nat>)
    requires
        old(t).wf(),
        o.wf(),
        bounded(old(t).counts(), bt),
        bounded(o.counts(), bo),
        bt + bo <= u64::MAX,
    ensures
        final(t).wf(),
        final(t).counts() == sum_counts(old(t).counts(), o.counts()),
        bounded(final(t).counts(), bt + bo),
{
    proof {
        o.lemma_keys();
    }
    let ghost a = t.counts();
    let ghost b = o.counts();
    let ghost ks = o.keys();
    let mut i: usize = 0;
    assert(partial_sum(a, b, ks.take(0)) =~= a);
    while i < o.len()
        invariant
            t.wf(),
            o.wf(),
            a == old(t).counts(),
            b == o.counts(),
            ks == o.keys(),
            ks.no_duplicates(),
            forall|k: Seq<char>| b.contains_key(k) <==> ks.contains(k),
            bounded(a, bt),
            bounded(b, bo),
            bt + bo <= u64::MAX,
            0 <= i <= ks.len(),
            t.counts() == partial_sum(a, b, ks.take(i as int)),
        decreases ks.len() - i,
    {
        let k = o.key(i);
        let n = o.get(k.as_str());
        proof {
            lemma_take_step(ks, i as int, ks[i as int]);
            assert(ks.contains(ks[i as int]));
        }
        t.add(k, n);
        proof {
            assert forall|x: Seq<char>| ks.take(i + 1).contains(x) <==> (ks.take(i as int).contains(x) || x == k@) by {
                lemma_take_step(ks, i as int, x);
            }
            assert(t.counts() =~= partial_sum(a, b, ks.take(i + 1)));
        }
        i = i + 1;
    }
    proof {
        lemma_partial_done(ks, b.dom());
        assert(t.counts() =~= sum_counts(a, b));
    }
}

fn merge_num_tally(t: &mut NumTally, o: &NumTally, Ghost(bt): Ghost<nat>, Ghost(bo): Ghost<nat>)
    requires
        old(t).wf(),
        o.wf(),
        bounded(old(t).counts(), bt),
        bounded(o.counts(), bo),
        bt + bo <= u64::MAX,
    ensures
        final(t).wf(),
        final(t).counts() == sum_counts(old(t).counts(), o.counts()),
        bounded(final(t).counts(), bt + bo),
{
    proof {
        o.lemma_keys();
    }
    let ghost a = t.counts();
    let ghost b = o.counts();
    let ghost ks = o.keys();
    let mut i: usize = 0;
    assert(partial_sum(a, b, ks.take(0)) =~= a);
    while i < o.len()
        invariant
            t.wf(),
            o.wf(),
            a == old(t).counts(),
            b == o.counts(),
            ks == o.keys(),
            ks.no_duplicates(),
            forall|k: u64| b.contains_key(k) <==> ks.contains(k),
            bounded(a, bt),
            bounded(b, bo),
            bt + bo <= u64::MAX,
            0 <= i <= ks.len(),
            t.counts() == partial_sum(a, b, ks.take(i as int)),
        decreases ks.len() - i,
    {
        let k = o.key(i);
        let n = o.get(k);
        proof {
            lemma_take_step(ks, i as int, ks[i as int]);
            assert(ks.contains(ks[i as int]));
        }
        t.add(k, n);
        proof {
            assert forall|x: u64| ks.take(i + 1).contains(x) <==> (ks.take(i as int).contains(x) || x == k) by {
                lemma_take_step(ks, i as int, x);
            }
            assert(t.counts() =~= partial_sum(a, b, ks.take(i + 1)));
        }
        i = i + 1;
    }
    proof {
        lemma_partial_done(ks, b.dom());
        assert(t.counts() =~= sum_counts(a, b));
    }
}

fn merge_year_sets(t: &mut YearSets, o: &YearSets)
    requires
        old(t).wf(),
        o.wf(),
    ensures
        final(t).wf(),
        final(t).sets() == union_sets(old(t).sets(), o.sets()),
{
    proof {
        o.lemma_years();
    }
    let ghost a = t.sets();
    let ghost b = o.sets();
    let ghost ks = o.years();
    let mut i: usize = 0;
    assert(partial_union(a, b, ks.take(0)) =~= a) by {
        assert forall|k: u64| a.contains_key(k) implies partial_union(a, b, ks.take(0))[k] == a[k] by {
            assert(set_of(a, k) + Set::<Seq<char>>::empty() =~= a[k]);
        }
    }
    while i < o.len()
        invariant
            t.wf(),
            o.wf(),
            a == old(t).sets(),
            b == o.sets(),
            ks == o.years(),
            ks.no_duplicates(),
            forall|k: u64| b.contains_key(k) <==> ks.contains(k),
            0 <= i <= ks.len(),
            t.sets() == partial_union(a, b, ks.take(i as int)),
        decreases ks.len() - i,
    {
        let y = o.year(i);
        let s = o.get(y);
        proof {
            lemma_take_step(ks, i as int, ks[i as int]);
        }
        t.add_all(y, &s);
        proof {
            assert forall|x: u64| ks.take(i + 1).contains(x) <==> (ks.take(i as int).contains(x) || x == y) by {
                lemma_take_step(ks, i as int, x);
            }
            let p = partial_union(a, b, ks.take(i + 1));
            assert forall|x: u64| p.contains_key(x) implies t.sets()[x] == p[x] by {
                lemma_take_step(ks, i as int, x);
                if x == y {
                    assert(t.sets()[x] =~= p[x]);
                } else {
                    assert(t.sets()[x] =~= p[x]);
                }
            }
            assert(t.sets() =~= p);
        }
        i = i + 1;
    }
    proof {
        lemma_partial_done(ks, b.dom());
        let u = union_sets(a, b);
        assert forall|x: u64| u.contains_key(x) implies t.sets()[x] == u[x] by {
            assert(t.sets()[x] =~= u[x]);
        }
        assert(t.sets() =~= u);
    }
}

proof fn lemma_count_each_step<K>(m: Map<K, nat>, ks: Seq<K>, i: int)
    requires
        0 <= i < ks.len(),
    ensures
        count_each(m, ks.take(i + 1)) == count_in(count_each(m, ks.take(i)), ks[i], 1),
{
    assert(ks.take(i + 1).drop_last() =~= ks.take(i));
}

proof fn lemma_count_in_bounded<K>(m: Map<K, nat>, k: K, b: nat)
    requires
        bounded(m, b),
    ensures
        bounded(count_in(m, k, 1), b + 1),
        count_of(m, k) <= b,
{
}

proof fn lemma_bounded_weaken<K>(m: Map<K, nat>, b: nat, c: nat)
    requires
        bounded(m, b),
        b <= c,
    ensures
        bounded(m, c),
{
}

/// How a record fared in `Stats::add_line`.
pub enum LineOutcome {
    /// The record was a work and was counted.
    Counted,
    /// The record was not a complete work and was counted as skipped.
    Skipped,
    /// Counting the record would exceed the accumulators' 64-bit capacity;
    /// nothing changed.
    Full,
}

/// One worker's accumulator set.
pub struct Stats {
    papers_per_year: NumTally,
    authors_per_year: YearSets,
    papers_per_author: TextTally,
    paper_author_count: NumTally,
    papers_per_topic: TextTally,
    skipped: u64,
    load: u64,
}

impl View for Stats {
    type V = StatsV;

    closed spec fn view(&self) -> StatsV {
        StatsV {
            papers_per_year: self.papers_per_year.counts(),
            authors_per_year: self.authors_per_year.sets(),
            papers_per_author: self.papers_per_author.counts(),
            paper_author_count: self.paper_author_count.counts(),
            papers_per_topic: self.papers_per_topic.counts(),
            skipped: self.skipped as nat,
        }
    }
}

impl Stats {
    /// How much of the 64-bit capacity the accumulators have used: every
    /// count they hold is at most this.
    pub closed spec fn used(&self) -> nat {
        self.load as nat
    }

    pub closed spec fn wf(&self) -> bool {
        &&& self.papers_per_year.wf()
        &&& self.authors_per_year.wf()
        &&& self.papers_per_author.wf()
        &&& self.paper_author_count.wf()
        &&& self.papers_per_topic.wf()
        &&& bounded(self.papers_per_year.counts(), self.load as nat)
        &&& bounded(self.papers_per_author.counts(), self.load as nat)
        &&& bounded(self.paper_author_count.counts(), self.load as nat)
        &&& bounded(self.papers_per_topic.counts(), self.load as nat)
        &&& self.skipped <= self.load
    }

    pub fn new() -> (r: Self)
        ensures
            r.wf(),
            r@ == empty_stats(),
            r.used() == 0,
    {
        Stats {
            papers_per_year: NumTally::new(),
            authors_per_year: YearSets::new(),
            papers_per_author: TextTally::new(),
            paper_author_count: NumTally::new(),
            papers_per_topic: TextTally::new(),
            skipped: 0,
            load: 0,
        }
    }

    pub fn load(&self) -> (r: u64)
        ensures
            r == self.used(),
    {
        self.load
    }

    /// Counts one work.
    pub fn add_work(&mut self, w: &Work)
        requires
            old(self).wf(),
            old(self).used() + work_cost(w@) <= u64::MAX,
        ensures
            final(self).wf(),
            final(self)@ == with_work(old(self)@, w@),
            final(self).used() == old(self).used() + work_cost(w@),
    {
        let ghost wv = w@;
        let base = self.load;
        let na = w.authors.len();
        let nt = w.topics.len();
        proof {
            lemma_count_in_bounded(self.papers_per_year.counts(), w.year, base as nat);
            lemma_count_in_bounded(self.paper_author_count.counts(), na as u64, base as nat);
        }
        self.papers_per_year.add(w.year, 1);
        self.paper_author_count.add(na as u64, 1);
        let ghost pa = self.papers_per_author.counts();
        let ghost s0 = *self;
        let mut i: usize = 0;
        assert(wv.authors.take(0) =~= Seq::<Seq<char>>::empty());
        while i < na
            invariant
                wv == w@,
                na == w.authors@.len(),
                0 <= i <= na,
                base as nat + 2 + na + nt <= u64::MAX,
                self.papers_per_author.wf(),
                self.papers_per_year == s0.papers_per_year,
                self.authors_per_year == s0.authors_per_year,
                self.paper_author_count == s0.paper_author_count,
                self.papers_per_topic == s0.papers_per_topic,
                self.skipped == s0.skipped,
                self.load == s0.load,
                bounded(pa, base as nat),
                self.papers_per_author.counts() == count_each(pa, wv.authors.take(i as int)),
                bounded(self.papers_per_author.counts(), (base + i) as nat),
            decreases na - i,
        {
            proof {
                lemma_count_each_step(pa, wv.authors, i as int);
                lemma_count_in_bounded(self.papers_per_author.counts(), w.authors@[i as int]@, (base + i) as nat);
            }
            self.papers_per_author.add(&w.authors[i], 1);
            i = i + 1;
        }
        assert(wv.authors.take(na as int) =~= wv.authors);
        if na > 0 {
            let mut set = TextSet::new();
            let mut j: usize = 0;
            while j < na
                invariant
                    wv == w@,
                    na == w.authors@.len(),
                    0 <= j <= na,
                    set.wf(),
                    set.set() == wv.authors.take(j as int).to_set(),
                decreases na - j,
            {
                set.insert(&w.authors[j]);
                proof {
                    assert(wv.authors.take(j + 1) =~= wv.authors.take(j as int).push(wv.authors[j as int]));
                    wv.authors.take(j as int).lemma_push_to_set_commute(wv.authors[j as int]);
                }
                j = j + 1;
            }
            self.authors_per_year.add_all(w.year, &set);
        }
        let ghost pt = self.papers_per_topic.counts();
        let ghost s1 = *self;
        let mut k: usize = 0;
        assert(wv.topics.take(0) =~= Seq::<Seq<char>>::empty());
        while k < nt
            invariant
                wv == w@,
                nt == w.topics@.len(),
                0 <= k <= nt,
                base as nat + 2 + na + nt <= u64::MAX,
                self.papers_per_topic.wf(),
                self.papers_per_year == s1.papers_per_year,
                self.authors_per_year == s1.authors_per_year,
                self.paper_author_count == s1.paper_author_count,
                self.papers_per_author == s1.papers_per_author,
                self.skipped == s1.skipped,
                self.load == s1.load,
                bounded(pt, base as nat),
                self.papers_per_topic.counts() == count_each(pt, wv.topics.take(k as int)),
                bounded(self.papers_per_topic.counts(), (base + k) as nat),
            decreases nt - k,
        {
            proof {
                lemma_count_each_step(pt, wv.topics, k as int);
                lemma_count_in_bounded(self.papers_per_topic.counts(), w.topics@[k as int]@, (base + k) as nat);
            }
            self.papers_per_topic.add(&w.topics[k], 1);
            k = k + 1;
        }
        assert(wv.topics.take(nt as int) =~= wv.topics);
        self.load = base + 2 + na as u64 + nt as u64;
        proof {
            let l = self.load as nat;
            lemma_bounded_weaken(self.papers_per_year.counts(), (base + 1) as nat, l);
            lemma_bounded_weaken(self.paper_author_count.counts(), (base + 1) as nat, l);
            lemma_bounded_weaken(self.papers_per_author.counts(), (base + na) as nat, l);
            lemma_bounded_weaken(self.papers_per_topic.counts(), (base + nt) as nat, l);
        }
    }

    /// Counts one line of the corpus: a work where it holds one, else a
    /// skipped record.
    pub fn add_line(&mut self, line: &[u8]) -> (r: LineOutcome)
        requires
            old(self).wf(),
        ensures
            final(self).wf(),
            match work_of_line(line@) {
                Some(w) => if old(self).used() + work_cost(w) <= u64::MAX {
                    r is Counted && final(self)@ == with_work(old(self)@, w)
                } else {
                    r is Full && final(self)@ == old(self)@
                },
                None => if old(self).used() < u64::MAX {
                    r is Skipped && final(self)@ == with_skip(old(self)@)
                } else {
                    r is Full && final(self)@ == old(self)@
                },
            },
    {
        match read_work(line) {
            Some(w) => {
                let room = u64::MAX - self.load;
                let na = w.authors.len() as u64;
                let nt = w.topics.len() as u64;
                if na <= room && nt <= room - na && 2 <= room - na - nt {
                    self.add_work(&w);
                    LineOutcome::Counted
                } else {
                    LineOutcome::Full
                }
            },
            None => {
                if self.load < u64::MAX {
                    self.skipped = self.skipped + 1;
                    self.load = self.load + 1;
                    proof {
                        let l = self.load as nat;
                        lemma_bounded_weaken(self.papers_per_year.counts(), (l - 1) as nat, l);
                        lemma_bounded_weaken(self.paper_author_count.counts(), (l - 1) as nat, l);
                        lemma_bounded_weaken(self.papers_per_author.counts(), (l - 1) as nat, l);
                        lemma_bounded_weaken(self.papers_per_topic.counts(), (l - 1) as nat, l);
                    }
                    LineOutcome::Skipped
                } else {
                    LineOutcome::Full
                }
            },
        }
    }

    /// Adds another worker's accumulators into these.
    pub fn merge(&mut self, other: &Stats)
        requires
            old(self).wf(),
            other.wf(),
            old(self).used() + other.used() <= u64::MAX,
        ensures
            final(self).wf(),
            final(self)@ == merged(old(self)@, other@),
            final(self).used() == old(self).used() + other.used(),
    {
        let ghost bt = self.load as nat;
        let ghost bo = other.load as nat;
        merge_num_tally(&mut self.papers_per_year, &other.papers_per_year, Ghost(bt), Ghost(bo));
        merge_year_sets(&mut self.authors_per_year, &other.authors_per_year);
        merge_text_tally(&mut self.papers_per_author, &other.papers_per_author, Ghost(bt), Ghost(bo));
        merge_num_tally(&mut self.paper_author_count, &other.paper_author_count, Ghost(bt), Ghost(bo));
        merge_text_tally(&mut self.papers_per_topic, &other.papers_per_topic, Ghost(bt), Ghost(bo));
        self.skipped = self.skipped + other.skipped;
        self.load = self.load + other.load;
    }

    pub fn papers_per_year(&self) -> (r: &NumTally)
        requires
            self.wf(),
        ensures
            r.wf(),
            r.counts() == self@.papers_per_year,
    {
        &self.papers_per_year
    }

    pub fn authors_per_year(&self) -> (r: &YearSets)
        requires
            self.wf(),
        ensures
            r.wf(),
            r.sets() == self@.authors_per_year,
    {
        &self.authors_per_year
    }

    pub fn papers_per_author(&self) -> (r: &TextTally)
        requires
            self.wf(),
        ensures
            r.wf(),
            r.counts() == self@.papers_per_author,
    {
        &self.papers_per_author
    }

    pub fn paper_author_count(&self) -> (r: &NumTally)
        requires
            self.wf(),
        ensures
            r.wf(),
            r.counts() == self@.paper_author_count,
    {
        &self.paper_author_count
    }

    pub fn papers_per_topic(&self) -> (r: &TextTally)
        requires
            self.wf(),
        ensures
            r.wf(),
            r.counts() == self@.papers_per_topic,
    {
        &self.papers_per_topic
    }

    pub fn skipped(&self) -> (r: u64)
        ensures
            r == self@.skipped,
    {
        self.skipped
    }
}

/// One `key,count` line per key of a numeric tally, in key order.
pub fn num_rows(t: &NumTally) -> (r: Vec<String>)
    ensures
        r@.len() == t.keys().len(),
        forall|i: int|
            0 <= i < r@.len() ==> (#[trigger] r@[i])@ == int_text(t.keys()[i] as int) + seq![',']
                + int_text(count_of(t.counts(), t.keys()[i]) as int),
{
    let mut r: Vec<String> = Vec::new();
    let mut i: usize = 0;
    while i < t.len()
        invariant
            0 <= i <= t.keys().len(),
            r@.len() == i,
            forall|j: int|
                0 <= j < i ==> (#[trigger] r@[j])@ == int_text(t.keys()[j] as int) + seq![',']
                    + int_text(count_of(t.counts(), t.keys()[j]) as int),
        decreases t.keys().len() - i,
    {
        let k = t.key(i);
        let mut line = u64_text(k);
        line.push(',');
        let n = u64_text(t.get(k));
        push_chars(&mut line, &n);
        r.push(string_of(line.as_slice()));
        i = i + 1;
    }
    r
}

/// One `key,count` line per key of a text tally, in key order; a comma in
/// a key is written as a space.
pub fn text_rows(t: &TextTally) -> (r: Vec<String>)
    ensures
        r@.len() == t.keys().len(),
        forall|i: int|
            0 <= i < r@.len() ==> (#[trigger] r@[i])@ == replace_char(t.keys()[i], ',', ' ')
                + seq![','] + int_text(count_of(t.counts(), t.keys()[i]) as int),
{
    let mut r: Vec<String> = Vec::new();
    let mut i: usize = 0;
    while i < t.len()
        invariant
            0 <= i <= t.keys().len(),
            r@.len() == i,
            forall|j: int|
                0 <= j < i ==> (#[trigger] r@[j])@ == replace_char(t.keys()[j], ',', ' ')
                    + seq![','] + int_text(count_of(t.counts(), t.keys()[j]) as int),
        decreases t.keys().len() - i,
    {
        let k = t.key(i);
        let mut line = replace_text(k.as_str(), ',', ' ');
        line.push(',');
        let n = u64_text(t.get(k.as_str()));
        push_chars(&mut line, &n);
        r.push(string_of(line.as_slice()));
        i = i + 1;
    }
    r
}

/// One `year,size` line per year of a family of sets, in year order.
pub fn set_size_rows(y: &YearSets) -> (r: Vec<String>)
    requires
        y.wf(),
    ensures
        r@.len() == y.years().len(),
        forall|i: int|
            0 <= i < r@.len() ==> (#[trigger] r@[i])@ == int_text(y.years()[i] as int) + seq![',']
                + int_text(set_of(y.sets(), y.years()[i]).len() as int),
{
    let mut r: Vec<String> = Vec::new();
    let mut i: usize = 0;
    while i < y.len()
        invariant
            y.wf(),
            0 <= i <= y.years().len(),
            r@.len() == i,
            forall|j: int|
                0 <= j < i ==> (#[trigger] r@[j])@ == int_text(y.years()[j] as int) + seq![',']
                    + int_text(set_of(y.sets(), y.years()[j]).len() as int),
        decreases y.years().len() - i,
    {
        let k = y.year(i);
        let mut line = u64_text(k);
        line.push(',');
        let n = u64_text(y.size(k) as u64);
        push_chars(&mut line, &n);
        r.push(string_of(line.as_slice()));
        i = i + 1;
    }
    r
}

/// The counts of a text tally, in key order.
pub open spec fn tally_values(t: &TextTally) -> Seq<u64> {
    t.keys().map_values(|k: Seq<char>| count_of(t.counts(), k) as u64)
}

/// How many keys of a tally have each count: for a tally of papers per
/// author, the number of authors with N papers.
pub fn count_histogram(t: &TextTally) -> (r: NumTally)
    requires
        t.wf(),
    ensures
        r.wf(),
        r.counts() == count_each(Map::<u64, nat>::empty(), tally_values(t)),
{
    let ghost vs = tally_values(t);
    let mut h = NumTally::new();
    let mut i: usize = 0;
    assert(vs.take(0) =~= Seq::<u64>::empty());
    while i < t.len()
        invariant
            vs == tally_values(t),
            0 <= i <= t.keys().len(),
            h.wf(),
            h.counts() == count_each(Map::<u64, nat>::empty(), vs.take(i as int)),
            bounded(h.counts(), i as nat),
        decreases t.keys().len() - i,
    {
        let k = t.key(i);
        let v = t.get(k.as_str());
        proof {
            lemma_count_each_step(Map::<u64, nat>::empty(), vs, i as int);
            lemma_count_in_bounded(h.counts(), v, i as nat);
        }
        h.add(v, 1);
        i = i + 1;
    }
    assert(vs.take(t.keys().len() as int) =~= vs);
    h
}

} // verus!
