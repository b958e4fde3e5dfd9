//! The temporal collaboration graph: edge lines of a work, the metadata
//! line, and the year intervals that edges are routed to.
use vstd::prelude::*;
use crate::edges::{author_pairs, collaboration_pairs, pair_texts};
use crate::text::{
    chars_of, int_text, join, join_texts, push_chars, push_str, replace_char, split, split_text,
    string_of, strip_prefix, strip_prefix_text, u64_of_text, u64_text, char_texts,
    lemma_split_len, parse_u64, replace_text,
};
use crate::work::{texts, Work, WorkV};

verus! {

/// The prefix that corpus identifiers carry.
pub open spec fn id_prefix() -> Seq<char> {
    "https://openalex.org/"@
}

/// An identifier without the corpus prefix.
pub open spec fn short_id(s: Seq<char>) -> Seq<char> {
    strip_prefix(s, id_prefix())
}

/// One edge-list line: `year,work,author-a,author-b`.
pub open spec fn edge_line(year: u64, work: Seq<char>, a: Seq<char>, b: Seq<char>) -> Seq<char> {
    int_text(year as int) + seq![','] + work + seq![','] + a + seq![','] + b
}

/// The edge lines of a work, one per collaboration pair of its (shortened)
/// author identifiers.
pub open spec fn graph_edges(w: WorkV) -> Seq<Seq<char>> {
    collaboration_pairs(w.authors.map_values(|a: Seq<char>| short_id(a))).map_values(
        |p: (Seq<char>, Seq<char>)| edge_line(w.year, short_id(w.id), p.0, p.1),
    )
}

/// The metadata line of a work: `work,topic1;topic2;...`.
pub open spec fn metadata_line(w: WorkV) -> Seq<char> {
    short_id(w.id) + seq![','] + join(w.topics, seq![';'])
}

/// What the graph transform makes of one work.
pub struct GraphRecord {
    pub year: u64,
    pub edges: Vec<String>,
    pub metadata: String,
}

fn short_text(s: &String) -> (r: Vec<char>)
    ensures
        r@ == short_id(s@),
{
    strip_prefix_text(s.as_str(), "https://openalex.org/")
}

fn edge_text(year: &Vec<char>, work: &Vec<char>, a: &String, b: &String) -> (r: String)
    requires
        exists|y: u64| year@ == int_text(y as int),
    ensures
        forall|y: u64| year@ == int_text(y as int) ==> r@ == edge_line(y, work@, a@, b@),
{
    let mut out: Vec<char> = Vec::new();
    push_chars(&mut out, year);
    out.push(',');
    push_chars(&mut out, work);
    out.push(',');
    push_str(&mut out, a.as_str());
    out.push(',');
    push_str(&mut out, b.as_str());
    let r = string_of(out.as_slice());
    assert forall|y: u64| year@ == int_text(y as int) implies r@ == edge_line(y, work@, a@, b@) by {
        assert(out@ =~= edge_line(y, work@, a@, b@));
    }
    r
}

/// The edge lines and the metadata line of one work.
pub fn graph_record(w: &Work) -> (r: GraphRecord)
    ensures
        r.year == w.year,
        texts(r.edges@) == graph_edges(w@),
        r.metadata@ == metadata_line(w@),
{
    let ghost wv = w@;
    let mut short: Vec<String> = Vec::new();
    let mut i: usize = 0;
    while i < w.authors.len()
        invariant
            0 <= i <= w.authors@.len(),
            wv == w@,
            texts(short@) == wv.authors.take(i as int).map_values(|a: Seq<char>| short_id(a)),
        decreases w.authors.len() - i,
    {
        let ghost prev = short@;
        let c = short_text(&w.authors[i]);
        short.push(string_of(c.as_slice()));
        assert(texts(short@) =~= texts(prev).push(short_id(w.authors@[i as int]@)));
        assert(wv.authors.take(i + 1).map_values(|a: Seq<char>| short_id(a)) =~= wv.authors.take(
            i as int,
        ).map_values(|a: Seq<char>| short_id(a)).push(short_id(w.authors@[i as int]@)));
        i = i + 1;
    }
    assert(wv.authors.take(w.authors@.len() as int) =~= wv.authors);
    let pairs = author_pairs(&short);
    let ghost pv = pair_texts(pairs@);
    let year = u64_text(w.year);
    let work = short_text(&w.id);
    let mut edges: Vec<String> = Vec::new();
    let mut k: usize = 0;
    while k < pairs.len()
        invariant
            0 <= k <= pairs@.len(),
            wv == w@,
            pv == pair_texts(pairs@),
            year@ == int_text(w.year as int),
            work@ == short_id(w.id@),
            texts(edges@) == pv.take(k as int).map_values(
                |p: (Seq<char>, Seq<char>)| edge_line(wv.year, short_id(wv.id), p.0, p.1),
            ),
        decreases pairs.len() - k,
    {
        let ghost prev = edges@;
        let e = edge_text(&year, &work, &pairs[k].0, &pairs[k].1);
        edges.push(e);
        assert(texts(edges@) =~= texts(prev).push(e@));
        assert(pv.take(k + 1) =~= pv.take(k as int).push(pv[k as int]));
        k = k + 1;
    }
    assert(pv.take(pairs@.len() as int) =~= pv);
    let mut meta: Vec<char> = Vec::new();
    push_chars(&mut meta, &work);
    meta.push(',');
    let topics = join_texts(&w.topics, ';');
    push_chars(&mut meta, &topics);
    assert(meta@ =~= metadata_line(wv));
    GraphRecord { year: w.year, edges, metadata: string_of(meta.as_slice()) }
}

/// A closed year interval `[start, end]` and the file its edges go to.
pub struct TimeInterval {
    pub start: u64,
    pub end: u64,
    pub file_name: String,
}

pub open spec fn in_interval(iv: TimeInterval, year: u64) -> bool {
    iv.start <= year <= iv.end
}

/// The interval that one format entry `start-end` names: a bound that is
/// missing, or is not a number, is 0 for the start and the largest year for
/// the end. The entry's text is split at `-`; the first piece is the start
/// and the last the end.
pub open spec fn interval_bounds(entry: Seq<char>) -> (u64, u64) {
    let p = split(entry, '-');
    let start = match u64_of_text(p[0]) {
        Some(v) => v,
        None => 0,
    };
    let end = match u64_of_text(p.last()) {
        Some(v) => v,
        None => u64::MAX,
    };
    (start, end)
}

/// The output file of a format entry: the entry with `-` written `_`, then
/// `_` and the base name.
pub open spec fn interval_file(entry: Seq<char>, base: Seq<char>) -> Seq<char> {
    replace_char(entry, '-', '_') + seq!['_'] + base
}

/// Reads one format entry `start-end` into an interval writing to a file
/// named after the entry and `base`.
pub fn parse_interval(entry: &str, base: &str) -> (r: TimeInterval)
    ensures
        (r.start, r.end) == interval_bounds(entry@),
        r.file_name@ == interval_file(entry@, base@),
{
    let pieces = split_text(entry, '-');
    proof {
        lemma_split_len(entry@, '-');
    }
    let first = string_of(pieces[0].as_slice());
    let last = string_of(pieces[pieces.len() - 1].as_slice());
    let start = match parse_u64(first.as_str()) {
        Some(v) => v,
        None => 0,
    };
    let end = match parse_u64(last.as_str()) {
        Some(v) => v,
        None => u64::MAX,
    };
    let mut name = replace_text(entry, '-', '_');
    name.push('_');
    push_str(&mut name, base);
    assert(name@ =~= interval_file(entry@, base@));
    TimeInterval { start, end, file_name: string_of(name.as_slice()) }
}

/// Reads a colon-separated list of format entries.
pub fn parse_intervals(format: &str, base: &str) -> (r: Vec<TimeInterval>)
    ensures
        r@.len() == split(format@, ':').len(),
        forall|i: int|
            0 <= i < r@.len() ==> (#[trigger] r@[i].start, r@[i].end) == interval_bounds(
                split(format@, ':')[i],
            ) && r@[i].file_name@ == interval_file(split(format@, ':')[i], base@),
{
    let entries = split_text(format, ':');
    let ghost ev = char_texts(entries@);
    let mut r: Vec<TimeInterval> = Vec::new();
    let mut i: usize = 0;
    while i < entries.len()
        invariant
            0 <= i <= entries@.len(),
            ev == char_texts(entries@),
            ev == split(format@, ':'),
            r@.len() == i,
            forall|j: int|
                0 <= j < i ==> (#[trigger] r@[j].start, r@[j].end) == interval_bounds(ev[j])
                    && r@[j].file_name@ == interval_file(ev[j], base@),
        decreases entries.len() - i,
    {
        let text = string_of(entries[i].as_slice());
        let iv = parse_interval(text.as_str(), base);
        r.push(iv);
        i = i + 1;
    }
    r
}

/// The single interval used when no format is given: every year, into
/// `all_dataset.csv`.
pub fn default_intervals() -> (r: Vec<TimeInterval>)
    ensures
        r@.len() == 1,
        r@[0].start == 0,
        r@[0].end == u64::MAX,
        r@[0].file_name@ == "all_dataset.csv"@,
{
    let name = string_of(chars_of("all_dataset.csv").as_slice());
    vec![TimeInterval { start: 0, end: u64::MAX, file_name: name }]
}

/// The first interval, in list order, that holds `year`; `None` where none
/// does.
pub fn route(intervals: &Vec<TimeInterval>, year: u64) -> (r: Option<usize>)
    ensures
        match r {
            Some(i) => i < intervals@.len() && in_interval(intervals@[i as int], year) && forall|
                j: int,
            | 0 <= j < i ==> !in_interval(#[trigger] intervals@[j], year),
            None => forall|j: int|
                0 <= j < intervals@.len() ==> !in_interval(#[trigger] intervals@[j], year),
        },
{
    let mut i: usize = 0;
    while i < intervals.len()
        invariant
            0 <= i <= intervals@.len(),
            forall|j: int| 0 <= j < i ==> !in_interval(#[trigger] intervals@[j], year),
        decreases intervals.len() - i,
    {
        if intervals[i].start <= year && year <= intervals[i].end {
            return Some(i);
        }
        i = i + 1;
    }
    None
}

} // verus!
