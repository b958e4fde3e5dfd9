//! Affiliation records: for one author, the set of country codes of the
//! institutions they were affiliated with, per year; and the index of such
//! records by author that the membership filter looks authors up in.
use vstd::prelude::*;
use vstd::hash_map::StringHashMap;
use crate::json::{Json, JsonV, json_text, member, parse_json};
use crate::tally::set_of;
use crate::text::{i64_text, int_text, string_of};
use crate::work::{present, texts};

verus! {

/// Where `x` stands in `s`, counting from the end; -1 where it does not.
pub open spec fn position<A>(s: Seq<A>, x: A) -> int
    decreases s.len(),
{
    if s.len() == 0 {
        -1
    } else if s.last() == x {
        s.len() - 1
    } else {
        position(s.drop_last(), x)
    }
}

proof fn lemma_position<A>(s: Seq<A>, x: A)
    requires
        s.no_duplicates(),
    ensures
        s.contains(x) ==> 0 <= position(s, x) < s.len() && s[position(s, x)] == x,
        !s.contains(x) ==> position(s, x) == -1,
        forall|i: int| 0 <= i < s.len() && s[i] == x ==> position(s, x) == i,
    decreases s.len(),
{
    if s.len() > 0 {
        let t = s.drop_last();
        assert(t.no_duplicates());
        lemma_position(t, x);
        if s.last() != x {
            if s.contains(x) {
                let k = choose|k: int| 0 <= k < s.len() && s[k] == x;
                assert(t[k] == x);
            }
            if t.contains(x) {
                let k = choose|k: int| 0 <= k < t.len() && t[k] == x;
                assert(s[k] == x);
            }
        } else {
            assert(s[s.len() - 1] == x);
        }
    }
}

/// The year-to-countries mapping of parallel year and country lists.
pub open spec fn record_map(years: Seq<Seq<char>>, countries: Seq<Seq<Seq<char>>>) -> Map<
    Seq<char>,
    Set<Seq<char>>,
> {
    Map::new(|y: Seq<char>| years.contains(y), |y: Seq<char>| countries[position(years, y)].to_set())
}

/// The mapping that a raw affiliation history of `(country, year)` entries
/// describes.
pub open spec fn record_of(h: Seq<(Seq<char>, Seq<char>)>) -> Map<Seq<char>, Set<Seq<char>>>
    decreases h.len(),
{
    if h.len() == 0 {
        Map::empty()
    } else {
        let m = record_of(h.drop_last());
        m.insert(h.last().1, set_of(m, h.last().1).insert(h.last().0))
    }
}

/// One author's affiliation record: years in the order first seen, and for
/// each the country codes, each once.
pub struct AffRecord {
    years: Vec<String>,
    countries: Vec<Vec<String>>,
}

impl AffRecord {
    pub closed spec fn years(&self) -> Seq<Seq<char>> {
        texts(self.years@)
    }

    pub closed spec fn countries(&self) -> Seq<Seq<Seq<char>>> {
        self.countries@.map_values(|v: Vec<String>| texts(v@))
    }

    /// The year-to-countries mapping the record holds.
    pub open spec fn map(&self) -> Map<Seq<char>, Set<Seq<char>>> {
        record_map(self.years(), self.countries())
    }

    pub closed spec fn wf(&self) -> bool {
        &&& self.years().no_duplicates()
        &&& self.countries@.len() == self.years@.len()
        &&& forall|i: int| 0 <= i < self.countries@.len() ==> (#[trigger] self.countries()[i]).no_duplicates()
    }

    /// The lists are parallel, without repeats.
    pub proof fn lemma_shape(&self)
        requires
            self.wf(),
        ensures
            self.years().no_duplicates(),
            self.countries().len() == self.years().len(),
            forall|i: int| 0 <= i < self.countries().len() ==> (#[trigger] self.countries()[i]).no_duplicates(),
    {
    }

    pub fn new() -> (r: Self)
        ensures
            r.wf(),
            r.years().len() == 0,
            r.map() == Map::<Seq<char>, Set<Seq<char>>>::empty(),
    {
        let r = AffRecord { years: Vec::new(), countries: Vec::new() };
        assert(r.map() =~= Map::<Seq<char>, Set<Seq<char>>>::empty());
        r
    }

    pub fn is_empty(&self) -> (r: bool)
        ensures
            r == (self.years().len() == 0),
    {
        self.years.len() == 0
    }

    pub fn year_count(&self) -> (r: usize)
        ensures
            r == self.years().len(),
    {
        self.years.len()
    }

    pub fn year(&self, i: usize) -> (r: &String)
        requires
            i < self.years().len(),
        ensures
            r@ == self.years()[i as int],
    {
        &self.years[i]
    }

    pub fn countries_at(&self, i: usize) -> (r: &Vec<String>)
        requires
            self.wf(),
            i < self.years().len(),
        ensures
            texts(r@) == self.countries()[i as int],
    {
        &self.countries[i]
    }

    fn find_year(&self, year: &String) -> (r: Option<usize>)
        requires
            self.wf(),
        ensures
            match r {
                Some(i) => i < self.years().len() && self.years()[i as int] == year@,
                None => !self.years().contains(year@),
            },
    {
        let mut i: usize = 0;
        while i < self.years.len()
            invariant
                0 <= i <= self.years@.len(),
                forall|j: int| 0 <= j < i ==> self.years()[j] != year@,
            decreases self.years.len() - i,
        {
            if self.years[i] == *year {
                return Some(i);
            }
            i = i + 1;
        }
        None
    }

    /// Records an affiliation with `country` in `year`.
    pub fn add(&mut self, year: &String, country: &String)
        requires
            old(self).wf(),
        ensures
            final(self).wf(),
            final(self).map() == old(self).map().insert(year@, set_of(old(self).map(), year@).insert(country@)),
    {
        let ghost ys = self.years();
        let ghost cs = self.countries();
        proof {
            lemma_position(ys, year@);
        }
        match self.find_year(year) {
            Some(i) => {
                let mut found = false;
                let mut j: usize = 0;
                while j < self.countries[i].len()
                    invariant
                        i < self.countries@.len(),
                        0 <= j <= self.countries@[i as int]@.len(),
                        found <==> exists|k: int| 0 <= k < j && self.countries@[i as int]@[k]@ == country@,
                    decreases self.countries@[i as int]@.len() - j,
                {
                    if self.countries[i][j] == *country {
                        found = true;
                    }
                    j = j + 1;
                }
                let ghost ci = cs[i as int];
                assert(found <==> ci.contains(country@)) by {
                    if found {
                        let k = choose|k: int| 0 <= k < self.countries@[i as int]@.len() && self.countries@[i as int]@[k]@ == country@;
                        assert(ci[k] == country@);
                    }
                    if ci.contains(country@) {
                        let k = choose|k: int| 0 <= k < ci.len() && ci[k] == country@;
                        assert(self.countries@[i as int]@[k]@ == country@);
                    }
                }
                if !found {
                    self.countries[i].push(country.clone());
                    proof {
                        assert(self.countries()[i as int] =~= ci.push(country@));
                        assert(self.countries() =~= cs.update(i as int, ci.push(country@)));
                        assert(ci.push(country@).no_duplicates()) by {
                            assert forall|a: int, b: int| 0 <= a < b < ci.len() + 1 implies ci.push(country@)[a] != ci.push(country@)[b] by {
                                if b == ci.len() {
                                    assert(ci.contains(ci[a]));
                                }
                            }
                        }
                        assert(ci.push(country@).to_set() =~= ci.to_set().insert(country@)) by {
                            ci.lemma_push_to_set_commute(country@);
                        }
                    }
                } else {
                    assert(ci.to_set() =~= ci.to_set().insert(country@));
                }
                proof {
                    assert(self.years() == ys);
                    let want = old(self).map().insert(year@, set_of(old(self).map(), year@).insert(country@));
                    assert(ys.contains(year@)) by {
                        assert(ys[i as int] == year@);
                    }
                    assert forall|y: Seq<char>| #[trigger] self.map().contains_key(y) implies self.map()[y] == want[y] by {
                        lemma_position(ys, y);
                        if y == year@ {
                            assert(position(ys, y) == i);
                        } else {
                            assert(position(ys, y) != i);
                        }
                    }
                    assert(self.map() =~= want);
                }
            },
            None => {
                let mut v: Vec<String> = Vec::new();
                v.push(country.clone());
                assert(texts(v@) =~= seq![country@]);
                self.years.push(year.clone());
                self.countries.push(v);
                proof {
                    assert(self.years() =~= ys.push(year@));
                    assert(self.countries() =~= cs.push(seq![country@]));
                    assert(ys.push(year@).no_duplicates()) by {
                        assert forall|a: int, b: int| 0 <= a < b < ys.len() + 1 implies ys.push(year@)[a] != ys.push(year@)[b] by {
                            if b == ys.len() {
                                assert(ys.contains(ys[a]));
                            }
                        }
                    }
                    assert(seq![country@].to_set() =~= Set::<Seq<char>>::empty().insert(country@)) by {
                        assert(seq![country@] =~= Seq::<Seq<char>>::empty().push(country@));
                        Seq::<Seq<char>>::empty().lemma_push_to_set_commute(country@);
                    }
                    assert forall|y: Seq<char>| ys.push(year@).contains(y) <==> (ys.contains(y) || y == year@) by {
                        if ys.push(year@).contains(y) {
                            let k = choose|k: int| 0 <= k < ys.len() + 1 && ys.push(year@)[k] == y;
                            if k < ys.len() {
                                assert(ys[k] == y);
                            }
                        }
                        if ys.contains(y) {
                            let k = choose|k: int| 0 <= k < ys.len() && ys[k] == y;
                            assert(ys.push(year@)[k] == y);
                        }
                        assert(ys.push(year@)[ys.len() as int] == year@);
                    }
                    assert forall|y: Seq<char>| ys.contains(y) implies position(ys.push(year@), y) == position(ys, y) by {
                        assert(ys.push(year@).drop_last() =~= ys);
                    }
                    assert(position(ys.push(year@), year@) == ys.len()) by {
                        assert(ys.push(year@).last() == year@);
                    }
                    let want = old(self).map().insert(year@, set_of(old(self).map(), year@).insert(country@));
                    assert forall|y: Seq<char>| #[trigger] self.map().contains_key(y) implies self.map()[y] == want[y] by {
                        if y == year@ {
                            assert(self.countries()[ys.len() as int] == seq![country@]);
                        } else {
                            lemma_position(ys, y);
                            assert(self.countries()[position(ys, y)] == cs[position(ys, y)]);
                        }
                    }
                    assert(self.map() =~= want);
                }
            },
        }
    }
}

impl AffRecord {
    /// Records `year`, with no country added.
    pub fn add_year(&mut self, year: &String)
        requires
            old(self).wf(),
        ensures
            final(self).wf(),
            final(self).map() == old(self).map().insert(year@, set_of(old(self).map(), year@)),
    {
        let ghost ys = self.years();
        let ghost cs = self.countries();
        proof {
            lemma_position(ys, year@);
        }
        match self.find_year(year) {
            Some(i) => {
                proof {
                    assert(ys.contains(year@)) by {
                        assert(ys[i as int] == year@);
                    }
                    assert(self.map() =~= old(self).map().insert(year@, set_of(old(self).map(), year@)));
                }
            },
            None => {
                let v: Vec<String> = Vec::new();
                self.years.push(year.clone());
                self.countries.push(v);
                proof {
                    assert(texts(v@) =~= Seq::<Seq<char>>::empty());
                    assert(self.years() =~= ys.push(year@));
                    assert(self.countries() =~= cs.push(Seq::<Seq<char>>::empty()));
                    assert(ys.push(year@).no_duplicates()) by {
                        assert forall|a: int, b: int| 0 <= a < b < ys.len() + 1 implies ys.push(year@)[a] != ys.push(year@)[b] by {
                            if b == ys.len() {
                                assert(ys.contains(ys[a]));
                            }
                        }
                    }
                    assert forall|y: Seq<char>| ys.push(year@).contains(y) <==> (ys.contains(y) || y == year@) by {
                        if ys.push(year@).contains(y) {
                            let k = choose|k: int| 0 <= k < ys.len() + 1 && ys.push(year@)[k] == y;
                            if k < ys.len() {
                                assert(ys[k] == y);
                            }
                        }
                        if ys.contains(y) {
                            let k = choose|k: int| 0 <= k < ys.len() && ys[k] == y;
                            assert(ys.push(year@)[k] == y);
                        }
                        assert(ys.push(year@)[ys.len() as int] == year@);
                    }
                    assert forall|y: Seq<char>| ys.contains(y) implies position(ys.push(year@), y) == position(ys, y) by {
                        assert(ys.push(year@).drop_last() =~= ys);
                    }
                    assert(position(ys.push(year@), year@) == ys.len()) by {
                        assert(ys.push(year@).last() == year@);
                    }
                    let want = old(self).map().insert(year@, set_of(old(self).map(), year@));
                    assert(Seq::<Seq<char>>::empty().to_set() =~= Set::<Seq<char>>::empty());
                    assert forall|y: Seq<char>| #[trigger] self.map().contains_key(y) implies self.map()[y] == want[y] by {
                        if y != year@ {
                            lemma_position(ys, y);
                            assert(self.countries()[position(ys, y)] == cs[position(ys, y)]);
                        }
                    }
                    assert(self.map() =~= want);
                }
            },
        }
    }

    /// Adds every year and country of `other`.
    pub fn union_with(&mut self, other: &AffRecord)
        requires
            old(self).wf(),
            other.wf(),
        ensures
            final(self).wf(),
            final(self).map() == crate::tally::union_sets(old(self).map(), other.map()),
    {
        let ghost a = self.map();
        let ghost ys = other.years();
        let ghost cs = other.countries();
        let mut i: usize = 0;
        assert(record_map(ys.take(0), cs.take(0)) =~= Map::<Seq<char>, Set<Seq<char>>>::empty());
        assert(crate::tally::union_sets(a, Map::<Seq<char>, Set<Seq<char>>>::empty()) =~= a) by {
            assert forall|y: Seq<char>| a.contains_key(y) implies crate::tally::union_sets(a, Map::<Seq<char>, Set<Seq<char>>>::empty())[y] == a[y] by {
                assert(a[y] + Set::<Seq<char>>::empty() =~= a[y]);
            }
        }
        while i < other.years.len()
            invariant
                self.wf(),
                other.wf(),
                a == old(self).map(),
                ys == other.years(),
                cs == other.countries(),
                0 <= i <= ys.len(),
                self.map() == crate::tally::union_sets(a, record_map(ys.take(i as int), cs.take(i as int))),
            decreases ys.len() - i,
        {
            let y = &other.years[i];
            let list = &other.countries[i];
            self.add_year(y);
            let ghost m0 = self.map();
            let mut j: usize = 0;
            assert(cs[i as int].take(0).to_set() =~= Set::<Seq<char>>::empty());
            assert(set_of(m0, y@) =~= set_of(m0, y@) + cs[i as int].take(0).to_set());
            while j < list.len()
                invariant
                    self.wf(),
                    i < cs.len(),
                    cs[i as int] == texts(list@),
                    0 <= j <= list@.len(),
                    m0.contains_key(y@),
                    self.map() == m0.insert(y@, m0[y@] + cs[i as int].take(j as int).to_set()),
                decreases list.len() - j,
            {
                self.add(y, &list[j]);
                proof {
                    let c = cs[i as int];
                    assert(c.take(j + 1) =~= c.take(j as int).push(c[j as int]));
                    c.take(j as int).lemma_push_to_set_commute(c[j as int]);
                    assert(m0[y@] + c.take(j + 1).to_set() =~= (m0[y@] + c.take(j as int).to_set()).insert(c[j as int]));
                    assert(self.map() =~= m0.insert(y@, m0[y@] + c.take(j + 1).to_set()));
                }
                j = j + 1;
            }
            proof {
                other.lemma_shape();
                let c = cs[i as int];
                assert(c.take(c.len() as int) =~= c);
                let before = record_map(ys.take(i as int), cs.take(i as int));
                let after = record_map(ys.take(i + 1), cs.take(i + 1));
                lemma_position(ys.take(i + 1), y@);
                assert(ys.take(i + 1)[i as int] == y@);
                assert(!ys.take(i as int).contains(y@)) by {
                    if ys.take(i as int).contains(y@) {
                        let k = choose|k: int| 0 <= k < i && ys.take(i as int)[k] == y@;
                        assert(ys[k] == ys[i as int]);
                    }
                }
                assert forall|x: Seq<char>| ys.take(i + 1).contains(x) <==> (ys.take(i as int).contains(x) || x == y@) by {
                    let t1 = ys.take(i + 1);
                    if t1.contains(x) {
                        let k = choose|k: int| 0 <= k < t1.len() && t1[k] == x;
                        if k < i {
                            assert(ys.take(i as int)[k] == x);
                        }
                    }
                    if ys.take(i as int).contains(x) {
                        let k = choose|k: int| 0 <= k < i && ys.take(i as int)[k] == x;
                        assert(ys.take(i + 1)[k] == x);
                    }
                }
                assert forall|x: Seq<char>| ys.take(i as int).contains(x) implies position(ys.take(i + 1), x) == position(ys.take(i as int), x) by {
                    assert(ys.take(i + 1).drop_last() =~= ys.take(i as int));
                }
                let want = crate::tally::union_sets(a, after);
                assert forall|x: Seq<char>| #[trigger] self.map().contains_key(x) implies self.map()[x] == want[x] by {
                    if x == y@ {
                        assert(after[x] == c.to_set());
                        assert(self.map()[x] =~= want[x]);
                    } else if ys.take(i as int).contains(x) {
                        assert(cs.take(i + 1)[position(ys.take(i as int), x)] == cs.take(i as int)[position(ys.take(i as int), x)]) by {
                            lemma_position(ys.take(i as int), x);
                        }
                        assert(self.map()[x] =~= want[x]);
                    } else {
                        assert(self.map()[x] =~= want[x]);
                    }
                }
                assert(self.map() =~= want);
            }
            i = i + 1;
        }
        assert(ys.take(ys.len() as int) =~= ys);
        assert(cs.take(cs.len() as int) =~= cs) by {
            other.lemma_shape();
        }
    }

    /// True when some year of the record lists `country`.
    pub fn has_country(&self, country: &String) -> (r: bool)
        requires
            self.wf(),
        ensures
            r == exists|y: Seq<char>| #[trigger] self.map().contains_key(y) && self.map()[y].contains(country@),
    {
        let ghost ys = self.years();
        let ghost cs = self.countries();
        let mut i: usize = 0;
        while i < self.years.len()
            invariant
                self.wf(),
                ys == self.years(),
                cs == self.countries(),
                0 <= i <= ys.len(),
                forall|k: int| 0 <= k < i ==> !(#[trigger] cs[k]).contains(country@),
            decreases ys.len() - i,
        {
            let list = &self.countries[i];
            let mut j: usize = 0;
            while j < list.len()
                invariant
                    self.wf(),
                    ys == self.years(),
                    cs == self.countries(),
                    i < cs.len(),
                    i < ys.len(),
                    cs[i as int] == texts(list@),
                    0 <= j <= list@.len(),
                    forall|k: int| 0 <= k < j ==> cs[i as int][k] != country@,
                decreases list.len() - j,
            {
                if list[j] == *country {
                    proof {
                        let y = ys[i as int];
                        lemma_position(ys, y);
                        assert(ys.contains(y));
                        assert(self.map().contains_key(y));
                        assert(cs[i as int][j as int] == country@);
                        assert(self.map()[y].contains(country@));
                    }
                    return true;
                }
                j = j + 1;
            }
            i = i + 1;
        }
        proof {
            assert forall|y: Seq<char>| #[trigger] self.map().contains_key(y) implies !self.map()[y].contains(country@) by {
                lemma_position(ys, y);
            }
        }
        false
    }
}

/// The views of a list of `(country, year)` entries.
pub open spec fn history_texts(h: Seq<(String, String)>) -> Seq<(Seq<char>, Seq<char>)> {
    h.map_values(|e: (String, String)| (e.0@, e.1@))
}

/// Builds the affiliation record of a raw history of `(country, year)`
/// entries.
pub fn affiliation_record(history: &Vec<(String, String)>) -> (r: AffRecord)
    ensures
        r.wf(),
        r.map() == record_of(history_texts(history@)),
{
    let ghost h = history_texts(history@);
    let mut r = AffRecord::new();
    let mut i: usize = 0;
    assert(h.take(0) =~= Seq::<(Seq<char>, Seq<char>)>::empty());
    while i < history.len()
        invariant
            0 <= i <= history@.len(),
            h == history_texts(history@),
            r.wf(),
            r.map() == record_of(h.take(i as int)),
        decreases history.len() - i,
    {
        r.add(&history[i].1, &history[i].0);
        assert(h.take(i + 1).drop_last() =~= h.take(i as int));
        i = i + 1;
    }
    assert(h.take(history@.len() as int) =~= h);
    r
}

/// The year texts of a `years` list: integers that fit in a signed 64-bit
/// word, written in decimal; other entries are passed over.
pub open spec fn year_texts(ys: Seq<JsonV>) -> Seq<Seq<char>> {
    present(ys.map_values(|y: JsonV| match y.as_i64() {
        Some(v) => Some(int_text(v as int)),
        None => None,
    }))
}

/// The `(country, year)` entries of one affiliation: its institution's
/// country code with each of its years. An affiliation without a country
/// code or without a year list gives none.
pub open spec fn affiliation_entries(a: JsonV) -> Seq<(Seq<char>, Seq<char>)> {
    match (a.index("institution"@).index("country_code"@).as_str(), a.index("years"@).as_array()) {
        (Some(c), Some(ys)) => year_texts(ys).map_values(|y: Seq<char>| (c, y)),
        _ => Seq::empty(),
    }
}

/// The entries of an affiliation list, in order.
pub open spec fn history_of(affs: Seq<JsonV>) -> Seq<(Seq<char>, Seq<char>)>
    decreases affs.len(),
{
    if affs.len() == 0 {
        Seq::empty()
    } else {
        history_of(affs.drop_last()) + affiliation_entries(affs.last())
    }
}

/// An author entity's identifier and raw affiliation history; `None` where
/// it has no identifier. A missing affiliation list is an empty history.
pub open spec fn author_history(j: JsonV) -> Option<(Seq<char>, Seq<(Seq<char>, Seq<char>)>)> {
    match j.index("id"@).as_str() {
        Some(id) => Some(
            (
                id,
                match j.index("affiliations"@).as_array() {
                    Some(a) => history_of(a),
                    None => Seq::empty(),
                },
            ),
        ),
        None => None,
    }
}

fn push_affiliation(out: &mut Vec<(String, String)>, a: &Json)
    ensures
        history_texts(final(out)@) == history_texts(old(out)@) + affiliation_entries(a@),
{
    let country = match a.index("institution") {
        Some(inst) => match inst.index("country_code") {
            Some(c) => c.as_str(),
            None => None,
        },
        None => None,
    };
    let years = match a.index("years") {
        Some(y) => y.as_array(),
        None => None,
    };
    match (country, years) {
        (Some(c), Some(ys)) => {
            let ghost yv = ys@.map_values(|x: Json| x@);
            let ghost f = |y: JsonV| match y.as_i64() {
                Some(v) => Some(int_text(v as int)),
                None => None,
            };
            let ghost base = history_texts(out@);
            let mut i: usize = 0;
            assert(yv.take(0).map_values(f) =~= Seq::<Option<Seq<char>>>::empty());
            assert(base =~= base + present(yv.take(0).map_values(f)).map_values(|y: Seq<char>| (c@, y)));
            while i < ys.len()
                invariant
                    0 <= i <= ys@.len(),
                    yv == ys@.map_values(|x: Json| x@),
                    f == (|y: JsonV| match y.as_i64() {
                        Some(v) => Some(int_text(v as int)),
                        None => None,
                    }),
                    history_texts(out@) == base + present(yv.take(i as int).map_values(f)).map_values(
                        |y: Seq<char>| (c@, y),
                    ),
                decreases ys.len() - i,
            {
                let ghost prev = yv.take(i as int).map_values(f);
                assert(yv.take(i + 1).map_values(f) =~= prev.push(f(yv[i as int])));
                assert(prev.push(f(yv[i as int])).drop_last() =~= prev);
                assert(yv[i as int] == ys@[i as int]@);
                match ys[i].as_i64() {
                    Some(v) => {
                        assert(f(yv[i as int]) == Some(int_text(v as int)));
                        let t = string_of(i64_text(v).as_slice());
                        let ghost before = out@;
                        out.push((c.clone(), t));
                        assert(history_texts(out@) =~= history_texts(before).push((c@, int_text(v as int))));
                        assert(present(prev.push(f(yv[i as int]))) == present(prev).push(int_text(v as int)));
                        assert(present(prev).push(int_text(v as int)).map_values(|y: Seq<char>| (c@, y))
                            =~= present(prev).map_values(|y: Seq<char>| (c@, y)).push((c@, int_text(v as int))));
                    },
                    None => {
                        assert(f(yv[i as int]) is None);
                        assert(present(prev.push(f(yv[i as int]))) == present(prev));
                    },
                }
                i = i + 1;
            }
            assert(yv.take(ys@.len() as int) =~= yv);
            assert(yv.map_values(f) =~= yv.map_values(|y: JsonV| match y.as_i64() {
                Some(v) => Some(int_text(v as int)),
                None => None,
            }));
        },
        _ => {
            assert(history_texts(out@) =~= history_texts(out@) + Seq::<(Seq<char>, Seq<char>)>::empty());
        },
    }
}

/// An author entity's identifier and raw affiliation history.
pub fn read_author_history(j: &Json) -> (r: Option<(String, Vec<(String, String)>)>)
    ensures
        match r {
            Some((id, h)) => author_history(j@) == Some((id@, history_texts(h@))),
            None => author_history(j@) is None,
        },
{
    let id = match j.index("id") {
        Some(x) => match x.as_str() {
            Some(s) => s.clone(),
            None => return None,
        },
        None => return None,
    };
    let mut h: Vec<(String, String)> = Vec::new();
    match j.index("affiliations") {
        Some(x) => match x.as_array() {
            Some(affs) => {
                let ghost av = affs@.map_values(|x: Json| x@);
                let mut i: usize = 0;
                assert(av.take(0) =~= Seq::<JsonV>::empty());
                assert(history_texts(h@) =~= Seq::<(Seq<char>, Seq<char>)>::empty());
                while i < affs.len()
                    invariant
                        0 <= i <= affs@.len(),
                        av == affs@.map_values(|x: Json| x@),
                        history_texts(h@) == history_of(av.take(i as int)),
                    decreases affs.len() - i,
                {
                    push_affiliation(&mut h, &affs[i]);
                    assert(av.take(i + 1).drop_last() =~= av.take(i as int));
                    i = i + 1;
                }
                assert(av.take(affs@.len() as int) =~= av);
            },
            None => {
                assert(history_texts(h@) =~= Seq::<(Seq<char>, Seq<char>)>::empty());
            },
        },
        None => {
            assert(history_texts(h@) =~= Seq::<(Seq<char>, Seq<char>)>::empty());
        },
    }
    Some((id, h))
}

/// An author entity's identifier and raw affiliation history, read from
/// one line of the author corpus.
pub fn parse_json_author_line(line: &[u8]) -> (r: Option<(String, Vec<(String, String)>)>)
    ensures
        match r {
            Some((id, h)) => match json_text(line@) {
                Some(j) => author_history(j) == Some((id@, history_texts(h@))),
                None => false,
            },
            None => match json_text(line@) {
                Some(j) => author_history(j) is None,
                None => true,
            },
        },
{
    match parse_json(line) {
        Some(j) => read_author_history(&j),
        None => None,
    }
}

/// A lower-case hexadecimal digit.
pub open spec fn hex_digit(n: nat) -> char {
    if n < 10 {
        ((n + 48) as u8) as char
    } else {
        ((n + 87) as u8) as char
    }
}

/// How serde_json writes one character inside a JSON string: `"` and `\`
/// and the control characters escaped, the short forms `\b \t \n \f \r`
/// where they exist and `\u00XX` for the other control characters; any
/// other character as it is.
pub open spec fn escaped(c: char) -> Seq<char> {
    let n = c as u32;
    if c == '"' {
        seq!['\\', '"']
    } else if c == '\\' {
        seq!['\\', '\\']
    } else if n == 8 {
        seq!['\\', 'b']
    } else if n == 9 {
        seq!['\\', 't']
    } else if n == 10 {
        seq!['\\', 'n']
    } else if n == 12 {
        seq!['\\', 'f']
    } else if n == 13 {
        seq!['\\', 'r']
    } else if n < 32 {
        seq!['\\', 'u', '0', '0', hex_digit((n / 16) as nat), hex_digit((n % 16) as nat)]
    } else {
        seq![c]
    }
}

/// Each character of `s` as serde_json writes it inside a string.
pub open spec fn escaped_all(s: Seq<char>) -> Seq<char>
    decreases s.len(),
{
    if s.len() == 0 {
        Seq::empty()
    } else {
        escaped_all(s.drop_last()) + escaped(s.last())
    }
}

/// serde_json's JSON text of a string: the escaped characters in double
/// quotes.
pub open spec fn json_quoted(s: Seq<char>) -> Seq<char> {
    seq!['"'] + escaped_all(s) + seq!['"']
}

/// Relies on serde_json::to_string on a string slice, which cannot fail for
/// one: the JSON string literal of `s`, escaped as its table of escapes
/// gives.
#[verifier::external_body]
fn json_quote(s: &str) -> (r: String)
    ensures
        r@ == json_quoted(s@),
{
    match serde_json::to_string(s) {
        Ok(t) => t,
        Err(_) => String::new(),
    }
}

/// The JSON value of an affiliation record:
/// `{"id": id, "affs": {year: [country, ...], ...}}`.
pub open spec fn affiliation_tree(id: Seq<char>, years: Seq<Seq<char>>, countries: Seq<Seq<Seq<char>>>) -> JsonV {
    JsonV::Obj(
        seq![
            ("id"@, JsonV::Str(id)),
            (
                "affs"@,
                JsonV::Obj(
                    Seq::new(
                        years.len(),
                        |i: int| (years[i], JsonV::Arr(countries[i].map_values(|c: Seq<char>| JsonV::Str(c)))),
                    ),
                ),
            ),
        ],
    )
}

/// The strings of a JSON array; other elements are passed over.
pub open spec fn strings_in(a: Seq<JsonV>) -> Seq<Seq<char>> {
    present(a.map_values(|x: JsonV| x.as_str()))
}

/// Every element of a JSON array is a string.
pub open spec fn all_strings(a: Seq<JsonV>) -> bool {
    forall|i: int| 0 <= i < a.len() ==> (#[trigger] a[i]).as_str() is Some
}

/// The mapping that the members of an `affs` object describe: each member
/// names a year and lists its countries. `None` where a member is not a
/// list of strings.
pub open spec fn affs_map(m: Seq<(Seq<char>, JsonV)>) -> Option<Map<Seq<char>, Set<Seq<char>>>>
    decreases m.len(),
{
    if m.len() == 0 {
        Some(Map::empty())
    } else {
        match (affs_map(m.drop_last()), m.last().1.as_array()) {
            (Some(p), Some(a)) => if all_strings(a) {
                Some(p.insert(m.last().0, set_of(p, m.last().0) + strings_in(a).to_set()))
            } else {
                None
            },
            _ => None,
        }
    }
}

/// The author identifier and year-to-countries mapping of a stored
/// affiliation record; `None` where the identifier is missing, or `affs` is
/// not an object whose members are lists of strings.
pub open spec fn affiliation_of(j: JsonV) -> Option<(Seq<char>, Map<Seq<char>, Set<Seq<char>>>)> {
    match (j.index("id"@).as_str(), j.index("affs"@).as_object()) {
        (Some(id), Some(m)) => match affs_map(m) {
            Some(r) => Some((id, r)),
            None => None,
        },
        _ => None,
    }
}

proof fn lemma_strings_of_strs(cs: Seq<Seq<char>>)
    ensures
        strings_in(cs.map_values(|c: Seq<char>| JsonV::Str(c))) == cs,
    decreases cs.len(),
{
    if cs.len() > 0 {
        lemma_strings_of_strs(cs.drop_last());
        let a = cs.map_values(|c: Seq<char>| JsonV::Str(c));
        assert(a.map_values(|x: JsonV| x.as_str()).drop_last() =~= cs.drop_last().map_values(
            |c: Seq<char>| JsonV::Str(c),
        ).map_values(|x: JsonV| x.as_str()));
        assert(cs.drop_last().push(cs.last()) =~= cs);
    } else {
        assert(cs.map_values(|c: Seq<char>| JsonV::Str(c)).map_values(|x: JsonV| x.as_str()) =~= Seq::<Option<Seq<char>>>::empty());
    }
}

/// Reading back the JSON value of an affiliation record gives the same
/// author and the same year-to-countries mapping.
pub proof fn lemma_affiliation_round_trip(id: Seq<char>, years: Seq<Seq<char>>, countries: Seq<Seq<Seq<char>>>)
    requires
        years.no_duplicates(),
        countries.len() == years.len(),
    ensures
        affiliation_of(affiliation_tree(id, years, countries)) == Some((id, record_map(years, countries))),
{
    reveal_strlit("id");
    reveal_strlit("affs");
    let t = affiliation_tree(id, years, countries);
    let m = Seq::new(
        years.len(),
        |i: int| (years[i], JsonV::Arr(countries[i].map_values(|c: Seq<char>| JsonV::Str(c)))),
    );
    let top = t.as_object().unwrap();
    assert(top[0].0 == "id"@);
    assert(top[1].0 == "affs"@);
    assert("id"@ != "affs"@) by {
        assert("id"@.len() != "affs"@.len());
    }
    assert(top.drop_first().drop_first().len() == 0);
    assert(t.index("affs"@) == JsonV::Obj(m)) by {
        assert(member(top.drop_first(), "affs"@) == top[1].1);
    }
    assert forall|k: int| 0 <= k <= years.len() implies #[trigger] affs_map(m.take(k)) == Some(record_map(years.take(k), countries.take(k))) by {
        lemma_affs_prefix(years, countries, m, k);
    }
    assert(m.take(years.len() as int) =~= m);
    assert(years.take(years.len() as int) =~= years);
    assert(countries.take(years.len() as int) =~= countries);
}

proof fn lemma_affs_prefix(
    years: Seq<Seq<char>>,
    countries: Seq<Seq<Seq<char>>>,
    m: Seq<(Seq<char>, JsonV)>,
    k: int,
)
    requires
        years.no_duplicates(),
        countries.len() == years.len(),
        m == Seq::new(
            years.len(),
            |i: int| (years[i], JsonV::Arr(countries[i].map_values(|c: Seq<char>| JsonV::Str(c)))),
        ),
        0 <= k <= years.len(),
    ensures
        affs_map(m.take(k)) == Some(record_map(years.take(k), countries.take(k))),
    decreases k,
{
    if k == 0 {
        assert(m.take(0).len() == 0);
        assert(record_map(years.take(0), countries.take(0)) =~= Map::<Seq<char>, Set<Seq<char>>>::empty());
    } else {
        lemma_affs_prefix(years, countries, m, k - 1);
        let y = years[k - 1];
        let c = countries[k - 1];
        let ys = years.take(k);
        let yp = years.take(k - 1);
        assert(m.take(k).drop_last() =~= m.take(k - 1));
        assert(m.take(k).last() == (y, JsonV::Arr(c.map_values(|x: Seq<char>| JsonV::Str(x)))));
        lemma_strings_of_strs(c);
        let p = affs_map(m.take(k - 1)).unwrap();
        let ca = c.map_values(|x: Seq<char>| JsonV::Str(x));
        assert(all_strings(ca)) by {
            assert forall|i: int| 0 <= i < ca.len() implies (#[trigger] ca[i]).as_str() is Some by {
                assert(ca[i] == JsonV::Str(c[i]));
            }
        }
        assert(!yp.contains(y)) by {
            if yp.contains(y) {
                let j = choose|j: int| 0 <= j < k - 1 && yp[j] == y;
                assert(years[j] == years[k - 1]);
            }
        }
        assert(ys.no_duplicates());
        assert(yp.no_duplicates());
        assert(!p.contains_key(y));
        assert(ys.drop_last() =~= yp);
        assert(ys.last() == y);
        assert forall|x: Seq<char>| ys.contains(x) <==> (yp.contains(x) || x == y) by {
            if ys.contains(x) {
                let j = choose|j: int| 0 <= j < k && ys[j] == x;
                if j < k - 1 {
                    assert(yp[j] == x);
                }
            }
            if yp.contains(x) {
                let j = choose|j: int| 0 <= j < k - 1 && yp[j] == x;
                assert(ys[j] == x);
            }
            assert(ys[k - 1] == y);
        }
        let want = record_map(ys, countries.take(k));
        assert forall|x: Seq<char>| #[trigger] want.contains_key(x) implies affs_map(m.take(k)).unwrap()[x] == want[x] by {
            if x == y {
                assert(position(ys, y) == k - 1);
                assert(set_of(p, y) + c.to_set() =~= c.to_set());
            } else {
                lemma_position(yp, x);
                assert(position(ys, x) == position(yp, x));
            }
        }
        assert(affs_map(m.take(k)).unwrap() =~= want);
    }
}

impl AffRecord {
    /// True when the record lists `country` for `year`.
    pub fn lists(&self, year: &String, country: &String) -> (r: bool)
        requires
            self.wf(),
        ensures
            r == set_of(self.map(), year@).contains(country@),
    {
        let ghost ys = self.years();
        let ghost cs = self.countries();
        proof {
            lemma_position(ys, year@);
        }
        match self.find_year(year) {
            Some(i) => {
                let list = &self.countries[i];
                let mut j: usize = 0;
                while j < list.len()
                    invariant
                        i < cs.len(),
                        i < ys.len(),
                        ys[i as int] == year@,
                        ys == self.years(),
                        cs == self.countries(),
                        self.wf(),
                        position(ys, year@) == i,
                        cs[i as int] == texts(list@),
                        0 <= j <= list@.len(),
                        forall|k: int| 0 <= k < j ==> cs[i as int][k] != country@,
                    decreases list.len() - j,
                {
                    if list[j] == *country {
                        proof {
                            assert(cs[i as int][j as int] == country@);
                            assert(ys[i as int] == year@);
                            assert(ys.contains(year@));
                            assert(position(ys, year@) == i);
                            assert(cs[i as int].contains(country@));
                            assert(cs[i as int].to_set().contains(country@));
                        }
                        return true;
                    }
                    j = j + 1;
                }
                proof {
                    assert(ys[i as int] == year@);
                    assert(ys.contains(year@));
                    assert(position(ys, year@) == i);
                    assert(!cs[i as int].contains(country@));
                }
                false
            },
            None => false,
        }
    }
}

/// The text of one stored affiliation record, the JSON text of
/// `affiliation_tree`: `{"id":ID,"affs":{YEAR:[COUNTRY,...],...}}`.
pub open spec fn affiliation_text(id: Seq<char>, years: Seq<Seq<char>>, countries: Seq<Seq<Seq<char>>>) -> Seq<char> {
    "{\"id\":"@ + json_quoted(id) + ",\"affs\":{"@ + crate::text::join(
        Seq::new(
            years.len(),
            |i: int| json_quoted(years[i]) + ":["@ + crate::text::join(countries[i].map_values(|c: Seq<char>| json_quoted(c)), seq![',']) + "]"@,
        ),
        seq![','],
    ) + "}}"@
}

/// The JSON value of an author's affiliation record.
pub fn affiliation_json(id: &String, rec: &AffRecord) -> (r: Json)
    requires
        rec.wf(),
    ensures
        r@ == affiliation_tree(id@, rec.years(), rec.countries()),
{
    let ghost ys = rec.years();
    let ghost cs = rec.countries();
    proof {
        rec.lemma_shape();
    }
    let mut keys: Vec<String> = Vec::new();
    let mut vals: Vec<Json> = Vec::new();
    let mut i: usize = 0;
    while i < rec.year_count()
        invariant
            rec.wf(),
            ys == rec.years(),
            cs == rec.countries(),
            cs.len() == ys.len(),
            0 <= i <= ys.len(),
            keys@.len() == i,
            vals@.len() == i,
            forall|k: int| 0 <= k < i ==> (#[trigger] keys@[k])@ == ys[k] && vals@[k]@ == JsonV::Arr(
                cs[k].map_values(|c: Seq<char>| JsonV::Str(c)),
            ),
        decreases ys.len() - i,
    {
        let list = rec.countries_at(i);
        let mut arr: Vec<Json> = Vec::new();
        let mut j: usize = 0;
        while j < list.len()
            invariant
                0 <= j <= list@.len(),
                arr@.len() == j,
                forall|k: int| 0 <= k < j ==> (#[trigger] arr@[k])@ == JsonV::Str(list@[k]@),
            decreases list.len() - j,
        {
            arr.push(Json::Str(list[j].clone()));
            j = j + 1;
        }
        let ghost av = JsonV::Arr(cs[i as int].map_values(|c: Seq<char>| JsonV::Str(c)));
        let a = Json::Arr(arr);
        assert(a@ == av) by {
            assert(a@.as_array().unwrap() =~= cs[i as int].map_values(|c: Seq<char>| JsonV::Str(c)));
        }
        let ghost keys0 = keys@;
        let ghost vals0 = vals@;
        keys.push(rec.year(i).clone());
        vals.push(a);
        proof {
            assert forall|k: int| 0 <= k < i + 1 implies (#[trigger] keys@[k])@ == ys[k] && vals@[k]@
                == JsonV::Arr(cs[k].map_values(|c: Seq<char>| JsonV::Str(c))) by {
                if k < i {
                    assert(keys@[k] == keys0[k]);
                    assert(vals@[k] == vals0[k]);
                } else {
                    assert(vals@[k]@ == av);
                }
            }
        }
        i = i + 1;
    }
    let affs = Json::Obj(keys, vals);
    assert(affs@ == JsonV::Obj(
        Seq::new(ys.len(), |i: int| (ys[i], JsonV::Arr(cs[i].map_values(|c: Seq<char>| JsonV::Str(c))))),
    )) by {
        assert(affs@.as_object().unwrap() =~= Seq::new(
            ys.len(),
            |i: int| (ys[i], JsonV::Arr(cs[i].map_values(|c: Seq<char>| JsonV::Str(c)))),
        ));
    }
    let mut top_keys: Vec<String> = Vec::new();
    top_keys.push(string_of(crate::text::chars_of("id").as_slice()));
    top_keys.push(string_of(crate::text::chars_of("affs").as_slice()));
    let mut top_vals: Vec<Json> = Vec::new();
    top_vals.push(Json::Str(id.clone()));
    top_vals.push(affs);
    let ghost affs_view = JsonV::Obj(
        Seq::new(ys.len(), |i: int| (ys[i], JsonV::Arr(cs[i].map_values(|c: Seq<char>| JsonV::Str(c))))),
    );
    assert(top_vals@[0]@ == JsonV::Str(id@));
    assert(top_vals@[1]@ == affs_view);
    assert(top_keys@[0]@ == "id"@);
    assert(top_keys@[1]@ == "affs"@);
    let r = Json::Obj(top_keys, top_vals);
    assert(r@ == affiliation_tree(id@, ys, cs)) by {
        assert(r@.as_object().unwrap() =~= affiliation_tree(id@, ys, cs).as_object().unwrap());
    }
    r
}

/// The text of an author's affiliation record, as stored one per line.
pub fn affiliation_line(id: &String, rec: &AffRecord) -> (r: String)
    requires
        rec.wf(),
    ensures
        r@ == affiliation_text(id@, rec.years(), rec.countries()),
{
    let ghost ys = rec.years();
    let ghost cs = rec.countries();
    proof {
        rec.lemma_shape();
    }
    let ghost pv = Seq::new(
        ys.len(),
        |i: int| json_quoted(ys[i]) + ":["@ + crate::text::join(cs[i].map_values(|c: Seq<char>| json_quoted(c)), seq![',']) + "]"@,
    );
    let mut pieces: Vec<String> = Vec::new();
    let mut i: usize = 0;
    while i < rec.year_count()
        invariant
            rec.wf(),
            ys == rec.years(),
            cs == rec.countries(),
            cs.len() == ys.len(),
            0 <= i <= ys.len(),
            pv == Seq::new(
                ys.len(),
                |i: int| json_quoted(ys[i]) + ":["@ + crate::text::join(cs[i].map_values(|c: Seq<char>| json_quoted(c)), seq![',']) + "]"@,
            ),
            pieces@.len() == i,
            forall|k: int| 0 <= k < i ==> (#[trigger] pieces@[k])@ == pv[k],
        decreases ys.len() - i,
    {
        let list = rec.countries_at(i);
        let mut quoted: Vec<String> = Vec::new();
        let mut j: usize = 0;
        while j < list.len()
            invariant
                0 <= j <= list@.len(),
                quoted@.len() == j,
                forall|k: int| 0 <= k < j ==> (#[trigger] quoted@[k])@ == json_quoted(list@[k]@),
            decreases list.len() - j,
        {
            quoted.push(json_quote(list[j].as_str()));
            j = j + 1;
        }
        let mut piece: Vec<char> = Vec::new();
        crate::text::push_str(&mut piece, json_quote(rec.year(i).as_str()).as_str());
        crate::text::push_str(&mut piece, ":[");
        let joined = crate::text::join_texts(&quoted, ',');
        crate::text::push_chars(&mut piece, &joined);
        crate::text::push_str(&mut piece, "]");
        assert(quoted@.map_values(|s: String| s@) =~= cs[i as int].map_values(|c: Seq<char>| json_quoted(c)));
        assert(joined@ == crate::text::join(cs[i as int].map_values(|c: Seq<char>| json_quoted(c)), seq![',']));
        assert(piece@ =~= json_quoted(ys[i as int]) + ":["@ + crate::text::join(cs[i as int].map_values(|c: Seq<char>| json_quoted(c)), seq![',']) + "]"@);
        assert(piece@ =~= pv[i as int]);
        pieces.push(string_of(piece.as_slice()));
        i = i + 1;
    }
    let mut out: Vec<char> = Vec::new();
    crate::text::push_str(&mut out, "{\"id\":");
    crate::text::push_str(&mut out, json_quote(id.as_str()).as_str());
    crate::text::push_str(&mut out, ",\"affs\":{");
    let body = crate::text::join_texts(&pieces, ',');
    crate::text::push_chars(&mut out, &body);
    crate::text::push_str(&mut out, "}}");
    assert(pieces@.map_values(|s: String| s@) =~= pv);
    assert(out@ =~= affiliation_text(id@, ys, cs));
    string_of(out.as_slice())
}

proof fn lemma_affs_none_extends(m: Seq<(Seq<char>, JsonV)>, k: int)
    requires
        0 <= k <= m.len(),
        affs_map(m.take(k)) is None,
    ensures
        forall|n: int| k <= n <= m.len() ==> (#[trigger] affs_map(m.take(n))) is None,
    decreases m.len() - k,
{
    if k < m.len() {
        assert(m.take(k + 1).drop_last() =~= m.take(k));
        lemma_affs_none_extends(m, k + 1);
    }
}

/// Reads a stored affiliation record.
pub fn read_affiliation(j: &Json) -> (r: Option<(String, AffRecord)>)
    ensures
        match r {
            Some((id, rec)) => rec.wf() && affiliation_of(j@) == Some((id@, rec.map())),
            None => affiliation_of(j@) is None,
        },
{
    let id = match j.index("id") {
        Some(x) => match x.as_str() {
            Some(s) => s.clone(),
            None => return None,
        },
        None => return None,
    };
    let affs = match j.index("affs") {
        Some(x) => x,
        None => return None,
    };
    match affs {
        Json::Obj(keys, vals) => {
            let ghost mv = affs@.as_object().unwrap();
            let mut rec = AffRecord::new();
            let mut i: usize = 0;
            assert(mv.take(0) =~= Seq::<(Seq<char>, JsonV)>::empty());
            assert(affs@ == JsonV::Obj(mv));
            while i < keys.len()
                invariant
                    affs@ == JsonV::Obj(mv),
                    mv.len() == keys@.len(),
                    forall|k: int| 0 <= k < keys@.len() ==> #[trigger] mv[k] == (keys@[k]@, if 0 <= k < vals@.len() { vals@[k]@ } else { JsonV::Null }),
                    0 <= i <= keys@.len(),
                    rec.wf(),
                    affs_map(mv.take(i as int)) == Some(rec.map()),
                    j@.index("affs"@) == affs@,
                decreases keys.len() - i,
            {
                assert(mv.take(i + 1).drop_last() =~= mv.take(i as int));
                assert(mv.take(i + 1).last() == mv[i as int]);
                if i < vals.len() {
                    match vals[i].as_array() {
                        Some(arr) => {
                            let ghost av = arr@.map_values(|x: Json| x@);
                            let ghost m0 = rec.map();
                            assert(vals@[i as int]@.as_array() == Some(av));
                            assert(mv[i as int] == (keys@[i as int]@, vals@[i as int]@));
                            rec.add_year(&keys[i]);
                            let ghost m1 = rec.map();
                            let mut k: usize = 0;
                            assert(av.take(0).map_values(|x: JsonV| x.as_str()) =~= Seq::<Option<Seq<char>>>::empty());
                            assert(present(av.take(0).map_values(|x: JsonV| x.as_str())) =~= Seq::<Seq<char>>::empty());
                            assert(set_of(m0, keys@[i as int]@) + Seq::<Seq<char>>::empty().to_set() =~= set_of(m0, keys@[i as int]@));
                            assert(m1 =~= m0.insert(keys@[i as int]@, set_of(m0, keys@[i as int]@) + present(av.take(0).map_values(|x: JsonV| x.as_str())).to_set()));
                            while k < arr.len()
                                invariant
                                    av == arr@.map_values(|x: Json| x@),
                                    i < keys@.len(),
                                    rec.wf(),
                                    0 <= k <= arr@.len(),
                                    rec.map() == m0.insert(keys@[i as int]@, set_of(m0, keys@[i as int]@) + present(av.take(k as int).map_values(|x: JsonV| x.as_str())).to_set()),
                                    all_strings(av.take(k as int)),
                                    i < vals@.len(),
                                    vals@[i as int]@.as_array() == Some(av),
                                    mv.len() == keys@.len(),
                                    mv[i as int] == (keys@[i as int]@, vals@[i as int]@),
                                    mv.take(i + 1).drop_last() == mv.take(i as int),
                                    mv.take(i + 1).last() == mv[i as int],
                                    affs_map(mv.take(i as int)) == Some(m0),
                                    affs@ == JsonV::Obj(mv),
                                    j@.index("affs"@) == affs@,
                                decreases arr.len() - k,
                            {
                                let ghost prev = av.take(k as int).map_values(|x: JsonV| x.as_str());
                                assert(av.take(k + 1).map_values(|x: JsonV| x.as_str()) =~= prev.push(av[k as int].as_str()));
                                assert(prev.push(av[k as int].as_str()).drop_last() =~= prev);
                                assert(av[k as int] == arr@[k as int]@);
                                match arr[k].as_str() {
                                    Some(c) => {
                                        rec.add(&keys[i], c);
                                        proof {
                                            present(prev).lemma_push_to_set_commute(c@);
                                            assert(present(prev.push(Some(c@))) == present(prev).push(c@));
                                            let y = keys@[i as int]@;
                                            assert(set_of(m0, y) + present(prev).push(c@).to_set() =~= (set_of(m0, y) + present(prev).to_set()).insert(c@));
                                            assert(rec.map() =~= m0.insert(y, set_of(m0, y) + present(prev.push(Some(c@))).to_set()));
                                            assert(all_strings(av.take(k + 1))) by {
                                                assert forall|q: int| 0 <= q < k + 1 implies (#[trigger] av.take(k + 1)[q]).as_str() is Some by {
                                                    if q < k {
                                                        assert(av.take(k + 1)[q] == av.take(k as int)[q]);
                                                    }
                                                }
                                            }
                                        }
                                    },
                                    None => {
                                        proof {
                                            assert(!all_strings(av)) by {
                                                assert(av[k as int].as_str() is None);
                                            }
                                            assert(vals@[i as int]@.as_array() == Some(av));
                                            assert(affs_map(mv.take(i + 1)) is None);
                                            lemma_affs_none_extends(mv, i + 1);
                                            assert(mv.take(mv.len() as int) =~= mv);
                                        }
                                        return None;
                                    },
                                }
                                k = k + 1;
                            }
                            assert(av.take(arr@.len() as int) =~= av);
                            assert(vals@[i as int]@.as_array() == Some(av));
                            assert(av.map_values(|x: JsonV| x.as_str()) == av.take(arr@.len() as int).map_values(|x: JsonV| x.as_str()));
                        },
                        None => {
                            proof {
                                assert(affs_map(mv.take(i + 1)) is None);
                                lemma_affs_none_extends(mv, i + 1);
                                assert(mv.take(mv.len() as int) =~= mv);
                            }
                            return None;
                        },
                    }
                } else {
                    proof {
                        assert(mv[i as int].1 == JsonV::Null);
                        assert(affs_map(mv.take(i + 1)) is None);
                        lemma_affs_none_extends(mv, i + 1);
                        assert(mv.take(mv.len() as int) =~= mv);
                    }
                    return None;
                }
                i = i + 1;
            }
            assert(mv.take(keys@.len() as int) =~= mv);
            Some((id, rec))
        },
        _ => None,
    }
}

/// The text of one author's raw history as the extraction stage writes it:
/// `{ "id":ID,"affs":[{YEAR:COUNTRY},...]}`, one object per entry, in order.
pub open spec fn verbose_text(id: Seq<char>, h: Seq<(Seq<char>, Seq<char>)>) -> Seq<char> {
    "{ \"id\":"@ + json_quoted(id) + ",\"affs\":["@ + crate::text::join(
        h.map_values(|e: (Seq<char>, Seq<char>)| "{"@ + json_quoted(e.1) + ":"@ + json_quoted(e.0) + "}"@),
        seq![','],
    ) + "]}"@
}

/// Writes one author's raw history of `(country, year)` entries as a line.
pub fn verbose_affiliation_line(id: &String, history: &Vec<(String, String)>) -> (r: String)
    ensures
        r@ == verbose_text(id@, history_texts(history@)),
{
    let ghost hv = history_texts(history@);
    let ghost pv = hv.map_values(|e: (Seq<char>, Seq<char>)| "{"@ + json_quoted(e.1) + ":"@ + json_quoted(e.0) + "}"@);
    let mut pieces: Vec<String> = Vec::new();
    let mut i: usize = 0;
    while i < history.len()
        invariant
            hv == history_texts(history@),
            pv == hv.map_values(|e: (Seq<char>, Seq<char>)| "{"@ + json_quoted(e.1) + ":"@ + json_quoted(e.0) + "}"@),
            0 <= i <= hv.len(),
            pieces@.len() == i,
            forall|k: int| 0 <= k < i ==> (#[trigger] pieces@[k])@ == pv[k],
        decreases hv.len() - i,
    {
        let mut piece: Vec<char> = Vec::new();
        crate::text::push_str(&mut piece, "{");
        crate::text::push_str(&mut piece, json_quote(history[i].1.as_str()).as_str());
        crate::text::push_str(&mut piece, ":");
        crate::text::push_str(&mut piece, json_quote(history[i].0.as_str()).as_str());
        crate::text::push_str(&mut piece, "}");
        assert(piece@ =~= pv[i as int]);
        pieces.push(string_of(piece.as_slice()));
        i = i + 1;
    }
    let mut out: Vec<char> = Vec::new();
    crate::text::push_str(&mut out, "{ \"id\":");
    crate::text::push_str(&mut out, json_quote(id.as_str()).as_str());
    crate::text::push_str(&mut out, ",\"affs\":[");
    let body = crate::text::join_texts(&pieces, ',');
    crate::text::push_chars(&mut out, &body);
    crate::text::push_str(&mut out, "]}");
    assert(pieces@.map_values(|s: String| s@) =~= pv);
    assert(out@ =~= verbose_text(id@, hv));
    string_of(out.as_slice())
}

/// The entries that the members of one object of a verbose `affs` list
/// name: each member is a year whose value is a country. `None` where a
/// value is not a string.
pub open spec fn member_entries(m: Seq<(Seq<char>, JsonV)>) -> Option<Seq<(Seq<char>, Seq<char>)>>
    decreases m.len(),
{
    if m.len() == 0 {
        Some(Seq::empty())
    } else {
        match (member_entries(m.drop_last()), m.last().1.as_str()) {
            (Some(p), Some(c)) => Some(p.push((c, m.last().0))),
            _ => None,
        }
    }
}

/// The entries of a verbose `affs` list, in order; `None` where an element
/// is not an object of strings.
pub open spec fn verbose_entries(a: Seq<JsonV>) -> Option<Seq<(Seq<char>, Seq<char>)>>
    decreases a.len(),
{
    if a.len() == 0 {
        Some(Seq::empty())
    } else {
        match (verbose_entries(a.drop_last()), a.last().as_object()) {
            (Some(p), Some(m)) => match member_entries(m) {
                Some(q) => Some(p + q),
                None => None,
            },
            _ => None,
        }
    }
}

/// The author identifier and raw history of a verbose line; `None` where
/// the identifier is missing or `affs` is not a list of objects of strings.
pub open spec fn verbose_history(j: JsonV) -> Option<(Seq<char>, Seq<(Seq<char>, Seq<char>)>)> {
    match (j.index("id"@).as_str(), j.index("affs"@).as_array()) {
        (Some(id), Some(a)) => match verbose_entries(a) {
            Some(h) => Some((id, h)),
            None => None,
        },
        _ => None,
    }
}

proof fn lemma_members_none_extends(m: Seq<(Seq<char>, JsonV)>, k: int)
    requires
        0 <= k <= m.len(),
        member_entries(m.take(k)) is None,
    ensures
        member_entries(m) is None,
    decreases m.len() - k,
{
    if k < m.len() {
        assert(m.take(k + 1).drop_last() =~= m.take(k));
        lemma_members_none_extends(m, k + 1);
    } else {
        assert(m.take(k) =~= m);
    }
}

proof fn lemma_entries_none_extends(a: Seq<JsonV>, k: int)
    requires
        0 <= k <= a.len(),
        verbose_entries(a.take(k)) is None,
    ensures
        verbose_entries(a) is None,
    decreases a.len() - k,
{
    if k < a.len() {
        assert(a.take(k + 1).drop_last() =~= a.take(k));
        lemma_entries_none_extends(a, k + 1);
    } else {
        assert(a.take(k) =~= a);
    }
}

/// Appends the entries of one object of a verbose `affs` list; `false`
/// where a member's value is not a string.
fn push_members(out: &mut Vec<(String, String)>, x: &Json) -> (r: bool)
    ensures
        match x@.as_object() {
            Some(m) => match member_entries(m) {
                Some(q) => r && history_texts(final(out)@) == history_texts(old(out)@) + q,
                None => !r,
            },
            None => !r,
        },
{
    match x {
        Json::Obj(keys, vals) => {
            let ghost mv = x@.as_object().unwrap();
            let ghost base = history_texts(out@);
            let mut i: usize = 0;
            assert(mv.take(0) =~= Seq::<(Seq<char>, JsonV)>::empty());
            assert(base + Seq::<(Seq<char>, Seq<char>)>::empty() =~= base);
            while i < keys.len()
                invariant
                    x@ == JsonV::Obj(mv),
                    mv.len() == keys@.len(),
                    forall|k: int| 0 <= k < keys@.len() ==> #[trigger] mv[k] == (keys@[k]@, if 0 <= k < vals@.len() { vals@[k]@ } else { JsonV::Null }),
                    0 <= i <= keys@.len(),
                    member_entries(mv.take(i as int)) matches Some(q) && history_texts(out@) == base + q,
                decreases keys.len() - i,
            {
                assert(mv.take(i + 1).drop_last() =~= mv.take(i as int));
                assert(mv.take(i + 1).last() == mv[i as int]);
                let c = if i < vals.len() {
                    vals[i].as_str()
                } else {
                    None
                };
                match c {
                    Some(c) => {
                        let ghost q = member_entries(mv.take(i as int)).unwrap();
                        let ghost before = history_texts(out@);
                        out.push((c.clone(), keys[i].clone()));
                        assert(history_texts(out@) =~= before.push((c@, keys@[i as int]@)));
                        assert(base + q.push((c@, keys@[i as int]@)) =~= (base + q).push((c@, keys@[i as int]@)));
                    },
                    None => {
                        proof {
                            lemma_members_none_extends(mv, i + 1);
                        }
                        return false;
                    },
                }
                i = i + 1;
            }
            assert(mv.take(keys@.len() as int) =~= mv);
            true
        },
        _ => false,
    }
}

/// Reads the identifier and raw history of a verbose line.
pub fn read_verbose_history(j: &Json) -> (r: Option<(String, Vec<(String, String)>)>)
    ensures
        match r {
            Some((id, h)) => verbose_history(j@) == Some((id@, history_texts(h@))),
            None => verbose_history(j@) is None,
        },
{
    let id = match j.index("id") {
        Some(x) => match x.as_str() {
            Some(s) => s.clone(),
            None => return None,
        },
        None => return None,
    };
    let arr = match j.index("affs") {
        Some(x) => match x.as_array() {
            Some(a) => a,
            None => return None,
        },
        None => return None,
    };
    let ghost av = arr@.map_values(|x: Json| x@);
    let mut h: Vec<(String, String)> = Vec::new();
    let mut i: usize = 0;
    assert(av.take(0) =~= Seq::<JsonV>::empty());
    assert(history_texts(h@) =~= Seq::<(Seq<char>, Seq<char>)>::empty());
    while i < arr.len()
        invariant
            av == arr@.map_values(|x: Json| x@),
            j@.index("affs"@).as_array() == Some(av),
            j@.index("id"@).as_str() == Some(id@),
            0 <= i <= av.len(),
            verbose_entries(av.take(i as int)) == Some(history_texts(h@)),
        decreases av.len() - i,
    {
        assert(av.take(i + 1).drop_last() =~= av.take(i as int));
        assert(av.take(i + 1).last() == arr@[i as int]@);
        let ghost before = history_texts(h@);
        if !push_members(&mut h, &arr[i]) {
            proof {
                lemma_entries_none_extends(av, i + 1);
            }
            return None;
        }
        i = i + 1;
    }
    assert(av.take(av.len() as int) =~= av);
    Some((id, h))
}

/// The record held for `id`, empty where there is none.
pub open spec fn record_at(m: Map<Seq<char>, Map<Seq<char>, Set<Seq<char>>>>, id: Seq<char>) -> Map<
    Seq<char>,
    Set<Seq<char>>,
> {
    if m.contains_key(id) {
        m[id]
    } else {
        Map::empty()
    }
}

/// The index after one more record for `id`: united with the record already
/// held for `id`, if any.
pub open spec fn with_record(
    m: Map<Seq<char>, Map<Seq<char>, Set<Seq<char>>>>,
    id: Seq<char>,
    r: Map<Seq<char>, Set<Seq<char>>>,
) -> Map<Seq<char>, Map<Seq<char>, Set<Seq<char>>>> {
    m.insert(id, crate::tally::union_sets(record_at(m, id), r))
}

/// Adding two records to the author index gives the same index in either
/// order, so loading a file of records does not depend on the order of its
/// lines.
pub proof fn lemma_index_order(
    m: Map<Seq<char>, Map<Seq<char>, Set<Seq<char>>>>,
    a: Seq<char>,
    ra: Map<Seq<char>, Set<Seq<char>>>,
    b: Seq<char>,
    rb: Map<Seq<char>, Set<Seq<char>>>,
)
    ensures
        with_record(with_record(m, a, ra), b, rb) == with_record(with_record(m, b, rb), a, ra),
{
    let x = record_at(m, a);
    if a == b {
        crate::stats::lemma_union_sets_associates(x, ra, rb);
        crate::stats::lemma_union_sets_associates(x, rb, ra);
        crate::stats::lemma_union_sets_commutes(ra, rb);
        assert(with_record(with_record(m, a, ra), b, rb) =~= with_record(with_record(m, b, rb), a, ra));
    } else {
        assert(record_at(with_record(m, a, ra), b) == record_at(m, b));
        assert(record_at(with_record(m, b, rb), a) == record_at(m, a));
        assert(with_record(with_record(m, a, ra), b, rb) =~= with_record(with_record(m, b, rb), a, ra));
    }
}

/// Affiliation records by author identifier, in the order the authors were
/// first added. Records added for the same author are united.
pub struct AuthorIndex {
    map: StringHashMap<usize>,
    ids: Vec<String>,
    records: Vec<AffRecord>,
}

impl AuthorIndex {
    pub closed spec fn ids(&self) -> Seq<Seq<char>> {
        texts(self.ids@)
    }

    /// Each author's year-to-countries mapping.
    pub closed spec fn records(&self) -> Map<Seq<char>, Map<Seq<char>, Set<Seq<char>>>> {
        Map::new(|a: Seq<char>| self.map@.contains_key(a), |a: Seq<char>| self.records@[self.map@[a] as int].map())
    }

    pub closed spec fn wf(&self) -> bool {
        &&& self.ids().no_duplicates()
        &&& self.records@.len() == self.ids@.len()
        &&& forall|i: int|
            0 <= i < self.ids@.len() ==> #[trigger] self.map@.contains_key(self.ids()[i])
                && self.map@[self.ids()[i]] == i
        &&& forall|k: Seq<char>|
            #[trigger] self.map@.contains_key(k) ==> self.map@[k] < self.ids@.len() && self.ids()[self.map@[k] as int] == k
        &&& forall|i: int| 0 <= i < self.records@.len() ==> (#[trigger] self.records@[i]).wf()
    }

    pub fn new() -> (r: Self)
        ensures
            r.wf(),
            r.ids().len() == 0,
            r.records() == Map::<Seq<char>, Map<Seq<char>, Set<Seq<char>>>>::empty(),
    {
        let r = AuthorIndex { map: StringHashMap::new(), ids: Vec::new(), records: Vec::new() };
        assert(r.records() =~= Map::<Seq<char>, Map<Seq<char>, Set<Seq<char>>>>::empty());
        r
    }

    pub fn len(&self) -> (r: usize)
        ensures
            r == self.ids().len(),
    {
        self.ids.len()
    }

    /// The `i`-th author added, and their record.
    pub fn entry(&self, i: usize) -> (r: (&String, &AffRecord))
        requires
            self.wf(),
            i < self.ids().len(),
        ensures
            r.0@ == self.ids()[i as int],
            r.1.wf(),
            self.records().contains_key(r.0@),
            self.records()[r.0@] == r.1.map(),
    {
        assert(self.map@.contains_key(self.ids()[i as int]));
        assert(self.ids()[i as int] == self.ids@[i as int]@);
        (&self.ids[i], &self.records[i])
    }

    /// Adds an author's record, uniting it with any record already held.
    #[verifier::rlimit(30)]
    pub fn add(&mut self, id: &String, rec: &AffRecord)
        requires
            old(self).wf(),
            rec.wf(),
        ensures
            final(self).wf(),
            final(self).records() == with_record(old(self).records(), id@, rec.map()),
    {
        match self.map.get(id.as_str()) {
            Some(i) => {
                let i = *i;
                let ghost before = self.records@;
                self.records[i].union_with(rec);
                proof {
                    assert(self.ids() == old(self).ids());
                    assert(self.map@ == old(self).map@);
                    assert(self.records@.len() == old(self).records@.len());
                    assert forall|j: int| 0 <= j < self.records@.len() implies (#[trigger] self.records@[j]).wf() by {
                        if j != i {
                            assert(self.records@[j] == before[j]);
                        }
                    }
                    let want = old(self).records().insert(
                        id@,
                        crate::tally::union_sets(record_at(old(self).records(), id@), rec.map()),
                    );
                    assert forall|a: Seq<char>| #[trigger] self.records().contains_key(a) implies self.records()[a] == want[a] by {
                        if a != id@ {
                            assert(self.map@[a] != i) by {
                                assert(self.ids()[i as int] == id@);
                            }
                            assert(self.records@[self.map@[a] as int] == before[self.map@[a] as int]);
                        }
                    }
                    assert(self.records() =~= want);
                    assert forall|j: int| 0 <= j < self.ids@.len() implies #[trigger] self.map@.contains_key(self.ids()[j])
                        && self.map@[self.ids()[j]] == j by {
                        assert(old(self).map@.contains_key(old(self).ids()[j]));
                    }
                    assert forall|k: Seq<char>| #[trigger] self.map@.contains_key(k) implies self.map@[k] < self.ids@.len()
                        && self.ids()[self.map@[k] as int] == k by {
                        assert(old(self).map@.contains_key(k));
                    }
                }
            },
            None => {
                let n = self.ids.len();
                let mut fresh = AffRecord::new();
                fresh.union_with(rec);
                let ghost ids0 = self.ids();
                self.map.insert(id.clone(), n);
                self.ids.push(id.clone());
                self.records.push(fresh);
                proof {
                    assert(self.ids() =~= ids0.push(id@));
                    assert(!ids0.contains(id@)) by {
                        if ids0.contains(id@) {
                            let j = choose|j: int| 0 <= j < ids0.len() && ids0[j] == id@;
                            assert(old(self).map@.contains_key(ids0[j]));
                        }
                    }
                    assert(self.ids().no_duplicates()) by {
                        assert forall|a: int, b: int| 0 <= a < b < self.ids().len() implies self.ids()[a] != self.ids()[b] by {
                            if b == n {
                                assert(ids0.contains(ids0[a]));
                            }
                        }
                    }
                    assert forall|j: int| 0 <= j < self.ids@.len() implies #[trigger] self.map@.contains_key(self.ids()[j])
                        && self.map@[self.ids()[j]] == j by {
                        if j < n {
                            assert(self.ids()[j] == ids0[j]);
                            assert(ids0[j] != id@) by {
                                assert(ids0.contains(ids0[j]));
                            }
                            assert(old(self).map@.contains_key(old(self).ids()[j]));
                        } else {
                            assert(self.ids()[j] == id@);
                        }
                    }
                    assert forall|j: int| 0 <= j < self.records@.len() implies (#[trigger] self.records@[j]).wf() by {
                        if j < n {
                            assert(self.records@[j] == old(self).records@[j]);
                        }
                    }
                    assert forall|k: Seq<char>| #[trigger] self.map@.contains_key(k) implies self.map@[k] < self.ids@.len()
                        && self.ids()[self.map@[k] as int] == k by {
                        if k != id@ {
                            assert(old(self).map@.contains_key(k));
                            assert(self.ids()[old(self).map@[k] as int] == ids0[old(self).map@[k] as int]);
                        }
                    }
                    assert(crate::tally::union_sets(Map::<Seq<char>, Set<Seq<char>>>::empty(), rec.map()) =~= crate::tally::union_sets(record_at(old(self).records(), id@), rec.map()));
                    let want = old(self).records().insert(
                        id@,
                        crate::tally::union_sets(record_at(old(self).records(), id@), rec.map()),
                    );
                    assert forall|a: Seq<char>| #[trigger] self.records().contains_key(a) implies self.records()[a] == want[a] by {
                        if a != id@ {
                            assert(old(self).map@.contains_key(a));
                            assert(self.records@[self.map@[a] as int] == old(self).records@[self.map@[a] as int]);
                        }
                    }
                    assert(self.records() =~= want);
                }
            },
        }
    }

    /// True when the index holds a record for `id`.
    pub fn contains(&self, id: &str) -> (r: bool)
        ensures
            r == self.records().contains_key(id@),
    {
        self.map.contains_key(id)
    }

    /// True when `id`'s record lists `country` for `year`.
    pub fn affiliated(&self, id: &String, year: &String, country: &String) -> (r: bool)
        requires
            self.wf(),
        ensures
            r == (self.records().contains_key(id@) && set_of(self.records()[id@], year@).contains(country@)),
    {
        match self.map.get(id.as_str()) {
            Some(i) => self.records[*i].lists(year, country),
            None => false,
        }
    }

    /// Adds the raw history of one verbose line, as a record. Returns
    /// `false`, and changes nothing, where the line is not a verbose line.
    pub fn add_verbose_line(&mut self, line: &[u8]) -> (r: bool)
        requires
            old(self).wf(),
        ensures
            final(self).wf(),
            match json_text(line@) {
                Some(j) => match verbose_history(j) {
                    Some((id, h)) => r && final(self).records() == with_record(old(self).records(), id, record_of(h)),
                    None => !r && final(self).records() == old(self).records(),
                },
                None => !r && final(self).records() == old(self).records(),
            },
    {
        match parse_json(line) {
            Some(j) => match read_verbose_history(&j) {
                Some((id, h)) => {
                    let rec = affiliation_record(&h);
                    self.add(&id, &rec);
                    true
                },
                None => false,
            },
            None => false,
        }
    }

    /// Adds the record stored on one line. Returns `false`, and changes
    /// nothing, where the line is not a stored affiliation record.
    pub fn add_line(&mut self, line: &[u8]) -> (r: bool)
        requires
            old(self).wf(),
        ensures
            final(self).wf(),
            match json_text(line@) {
                Some(j) => match affiliation_of(j) {
                    Some((id, m)) => r && final(self).records() == with_record(old(self).records(), id, m),
                    None => !r && final(self).records() == old(self).records(),
                },
                None => !r && final(self).records() == old(self).records(),
            },
    {
        match parse_json(line) {
            Some(j) => match read_affiliation(&j) {
                Some((id, rec)) => {
                    self.add(&id, &rec);
                    true
                },
                None => false,
            },
            None => false,
        }
    }
}

/// What an author entity contributes to the extraction: its identifier and
/// raw history; `None` where it has no identifier or its history holds no
/// affiliation with a country and a year.
pub open spec fn author_entry_of(j: JsonV) -> Option<(Seq<char>, Seq<(Seq<char>, Seq<char>)>)> {
    match author_history(j) {
        Some((id, h)) => if h.len() > 0 {
            Some((id, h))
        } else {
            None
        },
        None => None,
    }
}

/// The identifier and raw history of one author entity, where it has an
/// identifier and a non-empty history.
pub fn extract_author(j: &Json) -> (r: Option<(String, Vec<(String, String)>)>)
    ensures
        match r {
            Some((id, h)) => author_entry_of(j@) == Some((id@, history_texts(h@))),
            None => author_entry_of(j@) is None,
        },
{
    match read_author_history(j) {
        Some((id, h)) => {
            if h.len() == 0 {
                None
            } else {
                Some((id, h))
            }
        },
        None => None,
    }
}

} // verus!
