//! The edge generator: the co-authorship pairs of one work.
use vstd::prelude::*;
use crate::work::texts;

verus! {

/// `s` with repeated elements removed; the first occurrence of each stays.
pub open spec fn distinct<A>(s: Seq<A>) -> Seq<A>
    decreases s.len(),
{
    if s.len() == 0 {
        s
    } else {
        let d = distinct(s.drop_last());
        if d.contains(s.last()) {
            d
        } else {
            d.push(s.last())
        }
    }
}

/// Every 2-combination of `s`: the first element with each later one, then
/// the combinations of the rest.
pub open spec fn combinations<A>(s: Seq<A>) -> Seq<(A, A)>
    decreases s.len(),
{
    if s.len() == 0 {
        Seq::empty()
    } else {
        s.drop_first().map_values(|x: A| (s[0], x)) + combinations(s.drop_first())
    }
}

/// The collaboration pairs of a work's author list: a single self-pair when
/// it names one author, else every pair of distinct authors once.
pub open spec fn collaboration_pairs<A>(authors: Seq<A>) -> Seq<(A, A)> {
    let d = distinct(authors);
    if d.len() == 1 {
        seq![(d[0], d[0])]
    } else {
        combinations(d)
    }
}

/// Two pairs that are equal when order is disregarded.
pub open spec fn same_pair<A>(p: (A, A), q: (A, A)) -> bool {
    (p.0 == q.0 && p.1 == q.1) || (p.0 == q.1 && p.1 == q.0)
}

pub open spec fn pair_texts(v: Seq<(String, String)>) -> Seq<(Seq<char>, Seq<char>)> {
    v.map_values(|p: (String, String)| (p.0@, p.1@))
}

proof fn lemma_distinct<A>(s: Seq<A>)
    ensures
        distinct(s).no_duplicates(),
        forall|x: A| distinct(s).contains(x) <==> s.contains(x),
        s.len() > 0 ==> distinct(s).len() > 0 && distinct(s)[0] == s[0],
    decreases s.len(),
{
    if s.len() > 0 {
        lemma_distinct(s.drop_last());
        let d = distinct(s.drop_last());
        assert forall|x: A| distinct(s).contains(x) <==> s.contains(x) by {
            if s.contains(x) {
                let k = choose|k: int| 0 <= k < s.len() && s[k] == x;
                if k < s.len() - 1 {
                    assert(s.drop_last()[k] == x);
                }
            }
            if s.drop_last().contains(x) {
                let k = choose|k: int| 0 <= k < s.len() - 1 && s.drop_last()[k] == x;
                assert(s[k] == x);
            }
            if !d.contains(s.last()) {
                if distinct(s).contains(x) {
                    let k = choose|k: int| 0 <= k < distinct(s).len() && distinct(s)[k] == x;
                    if k < d.len() {
                        assert(d[k] == x);
                    }
                }
                if d.contains(x) {
                    let k = choose|k: int| 0 <= k < d.len() && d[k] == x;
                    assert(distinct(s)[k] == x);
                }
                assert(distinct(s)[d.len() as int] == s.last());
            }
        }
        if s.len() == 1 {
            assert(s.drop_last().len() == 0);
        } else {
            assert(s.drop_last()[0] == s[0]);
        }
    }
}

proof fn lemma_combinations<A>(s: Seq<A>)
    requires
        s.no_duplicates(),
    ensures
        forall|k: int|
            0 <= k < combinations(s).len() ==> #[trigger] combinations(s)[k].0 != combinations(
                s,
            )[k].1 && s.contains(combinations(s)[k].0) && s.contains(combinations(s)[k].1),
        forall|k: int, l: int|
            0 <= k < l < combinations(s).len() ==> !same_pair(
                #[trigger] combinations(s)[k],
                #[trigger] combinations(s)[l],
            ),
        forall|x: A, y: A|
            s.contains(x) && s.contains(y) && x != y ==> exists|k: int|
                0 <= k < combinations(s).len() && same_pair(
                    #[trigger] combinations(s)[k],
                    (x, y),
                ),
    decreases s.len(),
{
    if s.len() > 0 {
        let rest = s.drop_first();
        let row = rest.map_values(|x: A| (s[0], x));
        let c = combinations(s);
        let cr = combinations(rest);
        assert(rest.no_duplicates());
        lemma_combinations(rest);
        assert(c == row + cr);
        assert(!rest.contains(s[0]));
        assert forall|x: A| rest.contains(x) implies s.contains(x) by {
            let k = choose|k: int| 0 <= k < rest.len() && rest[k] == x;
            assert(s[k + 1] == x);
        }
        assert forall|k: int| 0 <= k < c.len() implies #[trigger] c[k].0 != c[k].1 && s.contains(
            c[k].0,
        ) && s.contains(c[k].1) by {
            if k < row.len() {
                assert(rest.contains(rest[k]));
                assert(s.contains(s[0]));
            } else {
                assert(c[k] == cr[k - row.len()]);
            }
        }
        assert forall|k: int, l: int| 0 <= k < l < c.len() implies !same_pair(
            #[trigger] c[k],
            #[trigger] c[l],
        ) by {
            if l < row.len() {
                assert(rest[k] != rest[l]);
                assert(rest.contains(rest[k]));
            } else if k < row.len() {
                assert(c[l] == cr[l - row.len()]);
                assert(rest.contains(cr[l - row.len()].0));
                assert(rest.contains(cr[l - row.len()].1));
            } else {
                assert(c[k] == cr[k - row.len()]);
                assert(c[l] == cr[l - row.len()]);
            }
        }
        assert forall|x: A, y: A| s.contains(x) && s.contains(y) && x != y implies exists|k: int|
            0 <= k < c.len() && same_pair(#[trigger] c[k], (x, y)) by {
            let kx = choose|k: int| 0 <= k < s.len() && s[k] == x;
            let ky = choose|k: int| 0 <= k < s.len() && s[k] == y;
            if kx == 0 {
                assert(row[ky - 1] == (x, y));
                assert(same_pair(c[ky - 1], (x, y)));
            } else if ky == 0 {
                assert(row[kx - 1] == (y, x));
                assert(same_pair(c[kx - 1], (x, y)));
            } else {
                assert(rest[kx - 1] == x);
                assert(rest[ky - 1] == y);
                assert(rest.contains(x));
                assert(rest.contains(y));
                let k = choose|k: int| 0 <= k < cr.len() && same_pair(#[trigger] cr[k], (x, y));
                assert(c[k + row.len()] == cr[k]);
            }
        }
    }
}

/// Each unordered pair of distinct authors of a work comes out exactly once;
/// a work whose list names one author gives the one self-pair; no other pair
/// comes out.
pub proof fn lemma_collaboration_pairs<A>(authors: Seq<A>)
    ensures
        distinct(authors).len() == 1 ==> collaboration_pairs(authors) == seq![
            (authors[0], authors[0]),
        ],
        forall|k: int, l: int|
            0 <= k < l < collaboration_pairs(authors).len() ==> !same_pair(
                #[trigger] collaboration_pairs(authors)[k],
                #[trigger] collaboration_pairs(authors)[l],
            ),
        forall|x: A, y: A|
            authors.contains(x) && authors.contains(y) && x != y ==> exists|k: int|
                0 <= k < collaboration_pairs(authors).len() && same_pair(
                    #[trigger] collaboration_pairs(authors)[k],
                    (x, y),
                ),
        forall|k: int|
            0 <= k < collaboration_pairs(authors).len() ==> authors.contains(
                #[trigger] collaboration_pairs(authors)[k].0,
            ) && authors.contains(collaboration_pairs(authors)[k].1) && (distinct(authors).len()
                != 1 ==> collaboration_pairs(authors)[k].0 != collaboration_pairs(authors)[k].1),
{
    lemma_distinct(authors);
    let d = distinct(authors);
    lemma_combinations(d);
    assert forall|x: A, y: A|
        authors.contains(x) && authors.contains(y) && x != y implies exists|k: int|
        0 <= k < collaboration_pairs(authors).len() && same_pair(
            #[trigger] collaboration_pairs(authors)[k],
            (x, y),
        ) by {
        assert(d.contains(x));
        assert(d.contains(y));
        if d.len() == 1 {
            assert(d[0] == x);
            assert(d[0] == y);
        } else {
            assert(collaboration_pairs(authors) == combinations(d));
            let k = choose|k: int|
                0 <= k < combinations(d).len() && same_pair(#[trigger] combinations(d)[k], (x, y));
            assert(same_pair(collaboration_pairs(authors)[k], (x, y)));
        }
    }
    if d.len() == 1 {
        assert(d.contains(d[0]));
        assert forall|x: A, y: A| authors.contains(x) && authors.contains(y) implies x == y by {
            assert(d.contains(x));
            assert(d.contains(y));
        }
    }
}

/// The author list with repeats removed, first occurrences kept.
fn distinct_authors(v: &Vec<String>) -> (r: Vec<String>)
    ensures
        texts(r@) == distinct(texts(v@)),
{
    let ghost t = texts(v@);
    let mut r: Vec<String> = Vec::new();
    let mut i: usize = 0;
    while i < v.len()
        invariant
            0 <= i <= v@.len(),
            t == texts(v@),
            texts(r@) == distinct(t.take(i as int)),
        decreases v.len() - i,
    {
        let mut found = false;
        let mut j: usize = 0;
        while j < r.len()
            invariant
                0 <= j <= r@.len(),
                i < v@.len(),
                found <==> exists|k: int| 0 <= k < j && r@[k]@ == v@[i as int]@,
            decreases r.len() - j,
        {
            if r[j] == v[i] {
                found = true;
            }
            j = j + 1;
        }
        assert(t.take(i + 1).drop_last() =~= t.take(i as int));
        assert(t.take(i + 1).last() == v@[i as int]@);
        assert(found <==> texts(r@).contains(v@[i as int]@)) by {
            if found {
                let k = choose|k: int| 0 <= k < r@.len() && r@[k]@ == v@[i as int]@;
                assert(texts(r@)[k] == v@[i as int]@);
            }
            if texts(r@).contains(v@[i as int]@) {
                let k = choose|k: int| 0 <= k < r@.len() && texts(r@)[k] == v@[i as int]@;
                assert(r@[k]@ == v@[i as int]@);
            }
        }
        if !found {
            let ghost before = r@;
            r.push(v[i].clone());
            assert(texts(r@) =~= texts(before).push(v@[i as int]@));
        }
        i = i + 1;
    }
    assert(t.take(v@.len() as int) =~= t);
    r
}

/// The collaboration pairs of a work's author list, in the order of
/// `collaboration_pairs`.
pub fn author_pairs(authors: &Vec<String>) -> (r: Vec<(String, String)>)
    ensures
        pair_texts(r@) == collaboration_pairs(texts(authors@)),
{
    let d = distinct_authors(authors);
    let ghost dv = texts(d@);
    let n = d.len();
    if n == 1 {
        let r = vec![(d[0].clone(), d[0].clone())];
        assert(pair_texts(r@) =~= seq![(dv[0], dv[0])]);
        return r;
    }
    let mut r: Vec<(String, String)> = Vec::new();
    let mut i: usize = 0;
    assert(dv.skip(0) =~= dv);
    while i < n
        invariant
            n == d@.len(),
            dv == texts(d@),
            0 <= i <= n,
            pair_texts(r@) + combinations(dv.skip(i as int)) == combinations(dv),
        decreases n - i,
    {
        let ghost before = pair_texts(r@);
        let ghost row = dv.skip(i as int).drop_first().map_values(|x: Seq<char>| (dv[i as int], x));
        let mut j: usize = i + 1;
        while j < n
            invariant
                n == d@.len(),
                dv == texts(d@),
                i < j <= n,
                row == dv.skip(i as int).drop_first().map_values(|x: Seq<char>| (dv[i as int], x)),
                pair_texts(r@) == before + row.take(j - i - 1),
            decreases n - j,
        {
            let ghost prev = r@;
            r.push((d[i].clone(), d[j].clone()));
            assert(pair_texts(r@) =~= pair_texts(prev).push((dv[i as int], dv[j as int])));
            assert(row.take(j - i) =~= row.take(j - i - 1).push((dv[i as int], dv[j as int])));
            j = j + 1;
        }
        assert(row.take(n - i - 1) =~= row);
        assert(dv.skip(i as int).drop_first() =~= dv.skip(i + 1));
        assert(combinations(dv.skip(i as int)) == row + combinations(dv.skip(i + 1)));
        assert(pair_texts(r@) + combinations(dv.skip(i + 1)) =~= before + combinations(dv.skip(i as int)));
        i = i + 1;
    }
    assert(combinations(dv.skip(n as int)) =~= Seq::empty());
    assert(pair_texts(r@) =~= combinations(dv));
    r
}

} // verus!
