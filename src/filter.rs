//! The membership filter: keeps works by their authors, and by topic and the
//! country their authors were affiliated with in the work's year.
use vstd::prelude::*;
use crate::authors::AuthorIndex;
use crate::tally::set_of;
use crate::text::{int_text, string_of, u64_text};
use crate::work::{read_work, work_of_line, Work, WorkV};

verus! {

/// Some author of the list has a record in the index.
pub open spec fn lists_author(idx: Map<Seq<char>, Map<Seq<char>, Set<Seq<char>>>>, authors: Seq<Seq<char>>) -> bool {
    exists|i: int| 0 <= i < authors.len() && idx.contains_key(#[trigger] authors[i])
}

/// Some author of the list has a record that lists `country` for `year`.
pub open spec fn affiliated_in(
    idx: Map<Seq<char>, Map<Seq<char>, Set<Seq<char>>>>,
    authors: Seq<Seq<char>>,
    year: Seq<char>,
    country: Seq<char>,
) -> bool {
    exists|i: int|
        0 <= i < authors.len() && idx.contains_key(#[trigger] authors[i]) && set_of(idx[authors[i]], year).contains(
            country,
        )
}

/// A work passes the second filter when it lists `topic` and one of its
/// authors was affiliated with `country` in its publication year.
pub open spec fn passes(idx: Map<Seq<char>, Map<Seq<char>, Set<Seq<char>>>>, w: WorkV, country: Seq<char>, topic: Seq<char>) -> bool {
    affiliated_in(idx, w.authors, int_text(w.year as int), country) && w.topics.contains(topic)
}

/// True when some author of the work has a record in the index.
pub fn has_listed_author(w: &Work, idx: &AuthorIndex) -> (r: bool)
    ensures
        r == lists_author(idx.records(), w@.authors),
{
    let ghost a = w@.authors;
    let mut i: usize = 0;
    while i < w.authors.len()
        invariant
            a == w@.authors,
            0 <= i <= a.len(),
            forall|j: int| 0 <= j < i ==> !idx.records().contains_key(#[trigger] a[j]),
        decreases a.len() - i,
    {
        if idx.contains(w.authors[i].as_str()) {
            assert(idx.records().contains_key(a[i as int]));
            return true;
        }
        i = i + 1;
    }
    false
}

fn any_affiliated(w: &Work, idx: &AuthorIndex, year: &String, country: &String) -> (r: bool)
    requires
        idx.wf(),
    ensures
        r == affiliated_in(idx.records(), w@.authors, year@, country@),
{
    let ghost a = w@.authors;
    let mut i: usize = 0;
    while i < w.authors.len()
        invariant
            idx.wf(),
            a == w@.authors,
            0 <= i <= a.len(),
            forall|j: int|
                0 <= j < i ==> !(idx.records().contains_key(#[trigger] a[j]) && set_of(
                    idx.records()[a[j]],
                    year@,
                ).contains(country@)),
        decreases a.len() - i,
    {
        if idx.affiliated(&w.authors[i], year, country) {
            assert(idx.records().contains_key(a[i as int]));
            return true;
        }
        i = i + 1;
    }
    false
}

fn lists_topic(w: &Work, topic: &String) -> (r: bool)
    ensures
        r == w@.topics.contains(topic@),
{
    let ghost t = w@.topics;
    let mut k: usize = 0;
    while k < w.topics.len()
        invariant
            t == w@.topics,
            0 <= k <= t.len(),
            forall|j: int| 0 <= j < k ==> t[j] != topic@,
        decreases t.len() - k,
    {
        if w.topics[k] == *topic {
            assert(t[k as int] == topic@);
            return true;
        }
        k = k + 1;
    }
    false
}

/// True when the work lists `topic` and one of its authors was affiliated
/// with `country` in the work's publication year.
pub fn work_passes(w: &Work, idx: &AuthorIndex, country: &String, topic: &String) -> (r: bool)
    requires
        idx.wf(),
    ensures
        r == passes(idx.records(), w@, country@, topic@),
{
    let year = string_of(u64_text(w.year).as_slice());
    any_affiliated(w, idx, &year, country) && lists_topic(w, topic)
}

/// The first filter on one line of the corpus: the line holds a work with
/// an author in the index.
pub fn line_has_listed_author(line: &[u8], idx: &AuthorIndex) -> (r: bool)
    ensures
        r == match work_of_line(line@) {
            Some(w) => lists_author(idx.records(), w.authors),
            None => false,
        },
{
    match read_work(line) {
        Some(w) => has_listed_author(&w, idx),
        None => false,
    }
}

/// The second filter on one line of the corpus: the line holds a work that
/// lists `topic` and has an author affiliated with `country` in its year.
pub fn line_passes(line: &[u8], idx: &AuthorIndex, country: &String, topic: &String) -> (r: bool)
    requires
        idx.wf(),
    ensures
        r == match work_of_line(line@) {
            Some(w) => passes(idx.records(), w, country@, topic@),
            None => false,
        },
{
    match read_work(line) {
        Some(w) => work_passes(&w, idx, country, topic),
        None => false,
    }
}

} // verus!
