//! Work records: the fields of a corpus work that the transforms read.
use vstd::prelude::*;
use crate::json::{Json, JsonV, json_text, parse_json};

verus! {

/// The views of a sequence of strings.
pub open spec fn texts(v: Seq<String>) -> Seq<Seq<char>> {
    v.map_values(|s: String| s@)
}

/// The values that are present, in order.
pub open spec fn present(s: Seq<Option<Seq<char>>>) -> Seq<Seq<char>>
    decreases s.len(),
{
    if s.len() == 0 {
        Seq::empty()
    } else {
        match s.last() {
            Some(x) => present(s.drop_last()).push(x),
            None => present(s.drop_last()),
        }
    }
}

/// `entry["author"]["id"]` of one authorship entry, if it is a string.
pub open spec fn author_id_of(x: JsonV) -> Option<Seq<char>> {
    x.index("author"@).index("id"@).as_str()
}

/// `entry["display_name"]` of one concept entry, if it is a string.
pub open spec fn topic_of(x: JsonV) -> Option<Seq<char>> {
    x.index("display_name"@).as_str()
}

/// The author identifiers of an authorship list; entries without one are
/// passed over.
pub open spec fn author_ids(a: Seq<JsonV>) -> Seq<Seq<char>> {
    present(a.map_values(|x: JsonV| author_id_of(x)))
}

/// The topic names of a concept list; entries without one are passed over.
pub open spec fn topic_names(c: Seq<JsonV>) -> Seq<Seq<char>> {
    present(c.map_values(|x: JsonV| topic_of(x)))
}

/// A work as the transforms see it.
pub struct Work {
    pub id: String,
    pub year: u64,
    pub authors: Vec<String>,
    pub topics: Vec<String>,
}

pub struct WorkV {
    pub id: Seq<char>,
    pub year: u64,
    pub authors: Seq<Seq<char>>,
    pub topics: Seq<Seq<char>>,
}

impl View for Work {
    type V = WorkV;

    open spec fn view(&self) -> WorkV {
        WorkV { id: self.id@, year: self.year, authors: texts(self.authors@), topics: texts(self.topics@) }
    }
}

/// The work that a JSON record describes: `None` where the identifier, the
/// publication year, the authorship list or the concept list is missing or
/// of the wrong kind.
pub open spec fn work_of(j: JsonV) -> Option<WorkV> {
    match (
        j.index("id"@).as_str(),
        j.index("publication_year"@).as_u64(),
        j.index("authorships"@).as_array(),
        j.index("concepts"@).as_array(),
    ) {
        (Some(id), Some(year), Some(a), Some(c)) => Some(
            WorkV { id, year, authors: author_ids(a), topics: topic_names(c) },
        ),
        _ => None,
    }
}

/// The work that one line of the corpus holds: `None` where the line is not
/// JSON or lacks a required field.
pub open spec fn work_of_line(line: Seq<u8>) -> Option<WorkV> {
    match json_text(line) {
        Some(j) => work_of(j),
        None => None,
    }
}

fn str_member<'a>(j: &'a Json, key: &str) -> (r: Option<&'a String>)
    ensures
        match r {
            Some(s) => j@.index(key@).as_str() == Some(s@),
            None => j@.index(key@).as_str() is None,
        },
{
    match j.index(key) {
        Some(x) => x.as_str(),
        None => None,
    }
}

fn author_id<'a>(x: &'a Json) -> (r: Option<&'a String>)
    ensures
        match r {
            Some(s) => author_id_of(x@) == Some(s@),
            None => author_id_of(x@) is None,
        },
{
    match x.index("author") {
        Some(a) => str_member(a, "id"),
        None => None,
    }
}

/// Collects the strings that `pick` finds in each entry, passing over the
/// entries where it finds none.
fn collect_present(entries: &Vec<Json>, authors: bool) -> (r: Vec<String>)
    ensures
        authors ==> texts(r@) == author_ids(entries@.map_values(|x: Json| x@)),
        !authors ==> texts(r@) == topic_names(entries@.map_values(|x: Json| x@)),
{
    let ghost ev = entries@.map_values(|x: Json| x@);
    let ghost f = if authors {
        |x: JsonV| author_id_of(x)
    } else {
        |x: JsonV| topic_of(x)
    };
    let mut r: Vec<String> = Vec::new();
    let mut i: usize = 0;
    while i < entries.len()
        invariant
            0 <= i <= entries@.len(),
            ev == entries@.map_values(|x: Json| x@),
            f == (if authors {
                |x: JsonV| author_id_of(x)
            } else {
                |x: JsonV| topic_of(x)
            }),
            texts(r@) == present(ev.take(i as int).map_values(f)),
        decreases entries.len() - i,
    {
        let found = if authors {
            author_id(&entries[i])
        } else {
            str_member(&entries[i], "display_name")
        };
        let ghost prev = ev.take(i as int).map_values(f);
        assert(ev.take(i + 1).map_values(f) =~= prev.push(f(ev[i as int])));
        assert(ev[i as int] == entries@[i as int]@);
        assert(f(ev[i as int]) == (match found {
            Some(s) => Some(s@),
            None => None,
        }));
        assert(prev.push(f(ev[i as int])).drop_last() =~= prev);
        match found {
            Some(s) => {
                let ghost before = r@;
                r.push(s.clone());
                assert(r@.drop_last() =~= before);
                assert(texts(r@) =~= texts(before).push(s@));
            },
            None => {},
        }
        i = i + 1;
    }
    assert(ev.take(entries@.len() as int) =~= ev);
    proof {
        if authors {
            assert(ev.map_values(f) =~= ev.map_values(|x: JsonV| author_id_of(x)));
        } else {
            assert(ev.map_values(f) =~= ev.map_values(|x: JsonV| topic_of(x)));
        }
    }
    r
}

/// The display names of a concept list, in order; concepts without one are
/// passed over.
pub fn extract_topics(concepts: &Vec<Json>) -> (r: Vec<String>)
    ensures
        texts(r@) == topic_names(concepts@.map_values(|x: Json| x@)),
{
    collect_present(concepts, false)
}

/// Reads the fields of a work from its JSON record.
pub fn decode_work(j: &Json) -> (r: Option<Work>)
    ensures
        match r {
            Some(w) => work_of(j@) == Some(w@),
            None => work_of(j@) is None,
        },
{
    let id = match str_member(j, "id") {
        Some(s) => s,
        None => return None,
    };
    let year = match j.index("publication_year") {
        Some(y) => match y.as_u64() {
            Some(v) => v,
            None => return None,
        },
        None => return None,
    };
    let a = match j.index("authorships") {
        Some(x) => match x.as_array() {
            Some(a) => a,
            None => return None,
        },
        None => return None,
    };
    let c = match j.index("concepts") {
        Some(x) => match x.as_array() {
            Some(c) => c,
            None => return None,
        },
        None => return None,
    };
    let authors = collect_present(a, true);
    let topics = collect_present(c, false);
    Some(Work { id: id.clone(), year, authors, topics })
}

/// Reads a work from one line of the corpus.
pub fn read_work(line: &[u8]) -> (r: Option<Work>)
    ensures
        match r {
            Some(w) => work_of_line(line@) == Some(w@),
            None => work_of_line(line@) is None,
        },
{
    match parse_json(line) {
        Some(j) => decode_work(&j),
        None => None,
    }
}

} // verus!
