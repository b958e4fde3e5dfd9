use std::io::Write;

use openalex_crawler::authors::{
    affiliation_json, affiliation_line, affiliation_record, parse_json_author_line,
    verbose_affiliation_line, AuthorIndex,
};
use openalex_crawler::corpus::{
    concat_parts, decompress_gz_to_memory, process_single_author_file, process_single_work_file,
    split_lines, ShardError,
};
use openalex_crawler::edges::author_pairs;
use openalex_crawler::filter::{line_has_listed_author, line_passes};
use openalex_crawler::graph::{default_intervals, graph_record, parse_interval, parse_intervals, route};
use openalex_crawler::json::{parse_json, Json};
use openalex_crawler::shard::{get_num_threads, plan_shards};
use openalex_crawler::stats::{count_histogram, num_rows, set_size_rows, text_rows, LineOutcome, Stats};
use openalex_crawler::text::{i64_text, is_u64, join_texts, parse_u64, split_text, u64_text};
use openalex_crawler::weights::{weighted_file_name, EdgeWeights};
use openalex_crawler::work::{extract_topics, read_work};

const W1: &str = r#"{"id":"W1","publication_year":2020,"authorships":[{"author":{"id":"A1"}},{"author":{"id":"A2"}}],"concepts":[{"display_name":"AI"}]}"#;

fn s(x: &str) -> String {
    x.to_string()
}

fn gz(data: &[u8]) -> Vec<u8> {
    let mut e = flate2::write::GzEncoder::new(Vec::new(), flate2::Compression::default());
    e.write_all(data).unwrap();
    e.finish().unwrap()
}

fn text(v: &[char]) -> String {
    v.iter().collect()
}

fn sorted(mut v: Vec<String>) -> Vec<String> {
    v.sort();
    v
}

fn index_with_a1_us() -> AuthorIndex {
    let rec = affiliation_record(&vec![(s("US"), s("2020"))]);
    let line = affiliation_line(&s("A1"), &rec);
    let mut idx = AuthorIndex::new();
    assert!(idx.add_line(line.as_bytes()));
    idx
}

#[test]
fn shards_cover_units_in_order() {
    assert_eq!(plan_shards(10, 3), vec![(0, 3), (3, 6), (6, 10)]);
    assert_eq!(plan_shards(8, 4), vec![(0, 2), (2, 4), (4, 6), (6, 8)]);
    assert_eq!(plan_shards(7, 1), vec![(0, 7)]);
}

#[test]
fn shards_clamp_workers_to_units() {
    assert_eq!(plan_shards(2, 5), vec![(0, 1), (1, 2)]);
    assert_eq!(plan_shards(0, 4), Vec::<(u64, u64)>::new());
}

#[test]
fn worker_count_setting() {
    assert_eq!(get_num_threads(8, None), 8);
    assert_eq!(get_num_threads(8, Some("3")), 3);
    assert_eq!(get_num_threads(8, Some("zero")), 8);
    assert_eq!(get_num_threads(8, Some("0")), 8);
}

#[test]
fn single_author_gives_self_pair() {
    assert_eq!(author_pairs(&vec![s("a")]), vec![(s("a"), s("a"))]);
}

#[test]
fn three_authors_give_three_pairs() {
    assert_eq!(
        author_pairs(&vec![s("a"), s("b"), s("c")]),
        vec![(s("a"), s("b")), (s("a"), s("c")), (s("b"), s("c"))]
    );
}

#[test]
fn repeated_authors_pair_once() {
    assert_eq!(author_pairs(&vec![s("a"), s("b"), s("a")]), vec![(s("a"), s("b"))]);
    assert_eq!(author_pairs(&vec![s("a"), s("a")]), vec![(s("a"), s("a"))]);
    assert_eq!(author_pairs(&vec![]), Vec::<(String, String)>::new());
}

#[test]
fn merge_concatenates_in_worker_order() {
    let parts = vec![b"l1\nl2\n".to_vec(), Vec::new(), b"l3\n".to_vec()];
    assert_eq!(concat_parts(&parts), b"l1\nl2\nl3\n".to_vec());
    let whole = vec![b"l1\nl2\nl3\n".to_vec()];
    assert_eq!(concat_parts(&parts), concat_parts(&whole));
}

#[test]
fn statistics_scenario() {
    let mut st = Stats::new();
    assert!(matches!(st.add_line(W1.as_bytes()), LineOutcome::Counted));
    assert_eq!(st.papers_per_year().get(2020), 1);
    assert_eq!(st.papers_per_author().get("A1"), 1);
    assert_eq!(st.papers_per_author().get("A2"), 1);
    assert_eq!(st.paper_author_count().get(2), 1);
    assert_eq!(st.papers_per_topic().get("AI"), 1);
    assert_eq!(num_rows(st.papers_per_year()), vec![s("2020,1")]);
    assert_eq!(set_size_rows(st.authors_per_year()), vec![s("2020,2")]);
    assert_eq!(text_rows(st.papers_per_topic()), vec![s("AI,1")]);
    assert_eq!(st.skipped(), 0);
}

#[test]
fn statistics_skip_incomplete_records() {
    let mut st = Stats::new();
    assert!(matches!(st.add_line(b"not json"), LineOutcome::Skipped));
    assert!(matches!(st.add_line(br#"{"id":"W2","authorships":[],"concepts":[]}"#), LineOutcome::Skipped));
    assert_eq!(st.skipped(), 2);
    assert_eq!(st.papers_per_year().len(), 0);
    assert_eq!(st.papers_per_author().len(), 0);
}

#[test]
fn statistics_merge_in_either_order() {
    let w2 = r#"{"id":"W2","publication_year":2021,"authorships":[{"author":{"id":"A1"}}],"concepts":[{"display_name":"AI"},{"display_name":"Graphs, theory"}]}"#;
    let mut a = Stats::new();
    a.add_line(W1.as_bytes());
    let mut b = Stats::new();
    b.add_line(w2.as_bytes());
    b.add_line(W1.as_bytes());
    let mut ab = Stats::new();
    ab.merge(&a);
    ab.merge(&b);
    let mut ba = Stats::new();
    ba.merge(&b);
    ba.merge(&a);
    assert_eq!(sorted(num_rows(ab.papers_per_year())), sorted(num_rows(ba.papers_per_year())));
    assert_eq!(sorted(text_rows(ab.papers_per_author())), sorted(text_rows(ba.papers_per_author())));
    assert_eq!(sorted(text_rows(ab.papers_per_topic())), sorted(text_rows(ba.papers_per_topic())));
    assert_eq!(sorted(set_size_rows(ab.authors_per_year())), sorted(set_size_rows(ba.authors_per_year())));
    assert_eq!(ab.papers_per_author().get("A1"), 3);
    assert_eq!(ab.papers_per_year().get(2020), 2);
    assert_eq!(ab.papers_per_topic().get("Graphs, theory"), 1);
    assert!(text_rows(ab.papers_per_topic()).contains(&s("Graphs  theory,1")));
}

#[test]
fn papers_per_author_histogram() {
    let mut st = Stats::new();
    st.add_line(W1.as_bytes());
    st.add_line(br#"{"id":"W3","publication_year":2020,"authorships":[{"author":{"id":"A1"}}],"concepts":[]}"#);
    let h = count_histogram(st.papers_per_author());
    assert_eq!(h.get(2), 1);
    assert_eq!(h.get(1), 1);
    assert_eq!(sorted(num_rows(&h)), vec![s("1,1"), s("2,1")]);
}

#[test]
fn affiliation_record_round_trip() {
    let history = vec![(s("US"), s("2020")), (s("FR"), s("2020")), (s("US"), s("2020")), (s("DE"), s("2019"))];
    let rec = affiliation_record(&history);
    let line = affiliation_line(&s("A9"), &rec);
    assert_eq!(line, r#"{"id":"A9","affs":{"2020":["US","FR"],"2019":["DE"]}}"#);
    let mut idx = AuthorIndex::new();
    assert!(idx.add_line(line.as_bytes()));
    assert!(idx.affiliated(&s("A9"), &s("2020"), &s("US")));
    assert!(idx.affiliated(&s("A9"), &s("2020"), &s("FR")));
    assert!(idx.affiliated(&s("A9"), &s("2019"), &s("DE")));
    assert!(!idx.affiliated(&s("A9"), &s("2019"), &s("US")));
    let (id, back) = idx.entry(0);
    assert_eq!(affiliation_line(id, back), r#"{"id":"A9","affs":{"2019":["DE"],"2020":["US","FR"]}}"#);
}

#[test]
fn affiliation_json_value() {
    let rec = affiliation_record(&vec![(s("US"), s("2020"))]);
    let j = affiliation_json(&s("A1"), &rec);
    let parsed = parse_json(br#"{"id":"A1","affs":{"2020":["US"]}}"#).unwrap();
    assert_eq!(format!("{:?}", j.index("id").and_then(|x| x.as_str())), format!("{:?}", parsed.index("id").and_then(|x| x.as_str())));
    assert!(j.index("affs").unwrap().index("2020").unwrap().as_array().is_some());
}

#[test]
fn affiliation_text_escapes_quotes() {
    let rec = affiliation_record(&vec![(s("U\"S"), s("2020"))]);
    assert_eq!(affiliation_line(&s("A1"), &rec), r#"{"id":"A1","affs":{"2020":["U\"S"]}}"#);
}

#[test]
fn index_unites_records_of_one_author() {
    let mut idx = index_with_a1_us();
    assert!(idx.add_line(br#"{"id":"A1","affs":{"2021":["FR"]}}"#));
    assert!(!idx.add_line(b"{\"affs\":{}}"));
    assert_eq!(idx.len(), 1);
    assert!(idx.affiliated(&s("A1"), &s("2020"), &s("US")));
    assert!(idx.affiliated(&s("A1"), &s("2021"), &s("FR")));
    assert!(!idx.contains("A2"));
}

#[test]
fn author_history_from_entity() {
    let line = br#"{"id":"A5","affiliations":[{"institution":{"country_code":"IT"},"years":[2019,2018]},{"institution":{},"years":[2020]},{"institution":{"country_code":"ES"},"years":["x",2021]}]}"#;
    let (id, h) = parse_json_author_line(line).unwrap();
    assert_eq!(id, "A5");
    assert_eq!(h, vec![(s("IT"), s("2019")), (s("IT"), s("2018")), (s("ES"), s("2021"))]);
    assert!(parse_json_author_line(br#"{"affiliations":[]}"#).is_none());
}

#[test]
fn filter_scenario_country_and_topic() {
    let idx = index_with_a1_us();
    assert!(line_passes(W1.as_bytes(), &idx, &s("US"), &s("AI")));
    assert!(!line_passes(W1.as_bytes(), &idx, &s("FR"), &s("AI")));
    assert!(!line_passes(W1.as_bytes(), &idx, &s("US"), &s("Biology")));
    assert!(line_has_listed_author(W1.as_bytes(), &idx));
    assert!(!line_has_listed_author(W1.as_bytes(), &AuthorIndex::new()));
}

#[test]
fn temporal_partition_scenario() {
    let ivs = parse_intervals("2000-2010:2011-", "dataset.csv");
    assert_eq!(ivs.len(), 2);
    assert_eq!((ivs[0].start, ivs[0].end), (2000, 2010));
    assert_eq!((ivs[1].start, ivs[1].end), (2011, u64::MAX));
    assert_eq!(ivs[1].file_name, "2011__dataset.csv");
    assert_eq!(route(&ivs, 2012), Some(1));
    assert_eq!(route(&ivs, 2005), Some(0));
    assert_eq!(route(&ivs, 1999), None);
}

#[test]
fn first_matching_partition_wins() {
    let ivs = parse_intervals("2000-2020:2010-2030", "g.csv");
    assert_eq!(route(&ivs, 2015), Some(0));
    let all = default_intervals();
    assert_eq!(all[0].file_name, "all_dataset.csv");
    assert_eq!(route(&all, 0), Some(0));
}

#[test]
fn interval_bounds_may_be_omitted() {
    let a = parse_interval("-1990", "x.csv");
    assert_eq!((a.start, a.end), (0, 1990));
    assert_eq!(a.file_name, "_1990_x.csv");
    let b = parse_interval("1995", "x.csv");
    assert_eq!((b.start, b.end), (1995, 1995));
    let c = parse_interval("-", "x.csv");
    assert_eq!((c.start, c.end), (0, u64::MAX));
}

#[test]
fn edge_lines_of_a_work() {
    let line = br#"{"id":"https://openalex.org/W7","publication_year":2012,"authorships":[{"author":{"id":"https://openalex.org/A1"}},{"author":{}},{"author":{"id":"https://openalex.org/A2"}}],"concepts":[{"display_name":"AI"},{"display_name":"ML"}]}"#;
    let w = read_work(line).unwrap();
    let g = graph_record(&w);
    assert_eq!(g.year, 2012);
    assert_eq!(g.edges, vec![s("2012,W7,A1,A2")]);
    assert_eq!(g.metadata, "W7,AI;ML");
}

#[test]
fn edge_line_of_a_single_author_work() {
    let line = br#"{"id":"W8","publication_year":1999,"authorships":[{"author":{"id":"A3"}}],"concepts":[]}"#;
    let g = graph_record(&read_work(line).unwrap());
    assert_eq!(g.edges, vec![s("1999,W8,A3,A3")]);
    assert_eq!(g.metadata, "W8,");
}

#[test]
fn works_missing_fields_are_dropped() {
    assert!(read_work(br#"{"id":"W1","authorships":[],"concepts":[]}"#).is_none());
    assert!(read_work(br#"{"id":"W1","publication_year":-3,"authorships":[],"concepts":[]}"#).is_none());
    assert!(read_work(br#"{"publication_year":2000,"authorships":[],"concepts":[]}"#).is_none());
    assert!(read_work(br#"{"id":"W1","publication_year":2000,"concepts":[]}"#).is_none());
    assert!(read_work(b"{").is_none());
}

#[test]
fn topics_of_concepts() {
    let j = parse_json(br#"[{"display_name":"AI"},{"score":1},{"display_name":"Math"}]"#).unwrap();
    match j {
        Json::Arr(items) => assert_eq!(extract_topics(&items), vec![s("AI"), s("Math")]),
        _ => panic!("not an array"),
    }
}

#[test]
fn weighted_edges_count_unordered_pairs() {
    let mut w = EdgeWeights::new();
    assert!(w.add_line("2020,W1,A1,A2"));
    assert!(w.add_line("2021,W2,A2,A1"));
    assert!(w.add_line("2021,W3,A1,A3"));
    assert!(!w.add_line("2021,W4,A1"));
    assert!(w.add_line("2022,W5,A1,A1"));
    assert_eq!(w.lines(), vec![s("A1,A2,2"), s("A1,A3,1"), s("A1,A1,1")]);
    assert_eq!(w.total(), 4);
    assert_eq!(weighted_file_name("out/graphs/all_dataset.csv"), "weighted_all_dataset.csv");
}

#[test]
fn author_shard_file() {
    let data = format!(
        "{}\n\n{}\n",
        r#"{"id":"A1","affiliations":[{"institution":{"country_code":"US"},"years":[2020,2019]}]}"#,
        r#"{"id":"A2","affiliations":[]}"#
    );
    let out = process_single_author_file(&gz(data.as_bytes())).unwrap();
    assert_eq!(out.len(), 1);
    assert_eq!(out[0].0, "A1");
    assert_eq!(out[0].1, vec![(s("US"), s("2020")), (s("US"), s("2019"))]);
    assert_eq!(
        verbose_affiliation_line(&out[0].0, &out[0].1),
        r#"{ "id":"A1","affs":[{"2020":"US"},{"2019":"US"}]}"#
    );
    let rec = affiliation_record(&out[0].1);
    assert_eq!(affiliation_line(&out[0].0, &rec), r#"{"id":"A1","affs":{"2020":["US"],"2019":["US"]}}"#);
}

#[test]
fn verbose_lines_load_into_index() {
    let mut idx = AuthorIndex::new();
    assert!(idx.add_verbose_line(br#"{ "id":"A1","affs":[{"2020":"US"},{"2020":"FR"},{"2019":"US"}]}"#));
    assert!(idx.add_verbose_line(br#"{ "id":"A1","affs":[{"2021":"DE"}]}"#));
    assert!(!idx.add_verbose_line(br#"{ "id":"A2","affs":[{"2020":1}]}"#));
    assert!(!idx.add_verbose_line(br#"{ "id":"A2","affs":["US"]}"#));
    assert_eq!(idx.len(), 1);
    assert!(idx.affiliated(&s("A1"), &s("2020"), &s("FR")));
    assert!(idx.affiliated(&s("A1"), &s("2021"), &s("DE")));
    let (id, rec) = idx.entry(0);
    assert_eq!(affiliation_line(id, rec), r#"{"id":"A1","affs":{"2020":["US","FR"],"2019":["US"],"2021":["DE"]}}"#);
}

#[test]
fn stored_records_with_bad_lists_are_rejected() {
    let mut idx = AuthorIndex::new();
    assert!(!idx.add_line(br#"{"id":"A1","affs":{"2020":["US",1]}}"#));
    assert!(!idx.add_line(br#"{"id":"A1","affs":{"2020":"US"}}"#));
    assert!(!idx.add_line(br#"{"id":"A1","affs":[]}"#));
    assert_eq!(idx.len(), 0);
    assert!(idx.add_line(br#"{"id":"A1","affs":{"2020":[]}}"#));
    assert_eq!(idx.len(), 1);
}

#[test]
fn shard_file_errors() {
    assert_eq!(process_single_author_file(b"plain text").err(), Some(ShardError::Decompress));
    let bad = gz(b"{\"id\":\"A1\"}\nnot json\n");
    assert_eq!(process_single_author_file(&bad).err(), Some(ShardError::Malformed));
    assert_eq!(process_single_work_file(&bad, &AuthorIndex::new()).err(), Some(ShardError::Malformed));
    let binary = gz(&[0x7b, 0xff, 0xfe, 0x7d]);
    assert_eq!(process_single_author_file(&binary).err(), Some(ShardError::NotText));
    assert_eq!(process_single_work_file(&binary, &AuthorIndex::new()).err(), Some(ShardError::NotText));
}

#[test]
fn work_shard_file_keeps_listed_works() {
    let other = r#"{"id":"W9","publication_year":2020,"authorships":[{"author":{"id":"A7"}}],"concepts":[]}"#;
    let data = format!("{}\n{}\n", W1, other);
    let idx = index_with_a1_us();
    let kept = process_single_work_file(&gz(data.as_bytes()), &idx).unwrap();
    assert_eq!(kept, vec![W1.as_bytes().to_vec()]);
}

#[test]
fn decompressed_lines() {
    let lines = decompress_gz_to_memory(&gz(b"a\n\nbc\nd")).unwrap();
    assert_eq!(lines, vec![b"a".to_vec(), Vec::new(), b"bc".to_vec(), b"d".to_vec()]);
    let lines = decompress_gz_to_memory(&gz(b"a\nb\n")).unwrap();
    assert_eq!(lines, vec![b"a".to_vec(), b"b".to_vec(), Vec::new()]);
    assert_eq!(decompress_gz_to_memory(b"xyz").err(), Some(ShardError::Decompress));
    assert_eq!(decompress_gz_to_memory(&gz(&[0xc3, 0x28])).err(), Some(ShardError::NotText));
    assert_eq!(split_lines(b"\n\n"), vec![Vec::<u8>::new(), Vec::new(), Vec::new()]);
    assert_eq!(split_lines(b""), vec![Vec::<u8>::new()]);
}

#[test]
fn decimal_numbers() {
    assert_eq!(parse_u64("42"), Some(42));
    assert_eq!(parse_u64("+7"), Some(7));
    assert_eq!(parse_u64("-1"), None);
    assert_eq!(parse_u64(""), None);
    assert_eq!(parse_u64("+"), None);
    assert_eq!(parse_u64("18446744073709551615"), Some(u64::MAX));
    assert_eq!(parse_u64("18446744073709551616"), None);
    assert!(is_u64("2011"));
    assert!(!is_u64("20a1"));
    assert_eq!(text(&u64_text(0)), "0");
    assert_eq!(text(&u64_text(1234567890)), "1234567890");
    assert_eq!(text(&i64_text(-1)), "-1");
    assert_eq!(text(&i64_text(i64::MIN)), "-9223372036854775808");
}

#[test]
fn split_and_join() {
    let parts = split_text("a,,b", ',');
    assert_eq!(parts, vec![vec!['a'], vec![], vec!['b']]);
    assert_eq!(split_text("", ','), vec![Vec::<char>::new()]);
    assert_eq!(text(&join_texts(&vec![s("x"), s("y"), s("z")], ';')), "x;y;z");
    assert_eq!(text(&join_texts(&vec![], ';')), "");
}

#[test]
fn record_country_filter() {
    let rec = affiliation_record(&vec![(s("US"), s("2020")), (s("FR"), s("2018"))]);
    assert!(rec.has_country(&s("FR")));
    assert!(rec.has_country(&s("US")));
    assert!(!rec.has_country(&s("DE")));
    assert!(rec.lists(&s("2018"), &s("FR")));
    assert!(!rec.lists(&s("2020"), &s("FR")));
}

#[test]
fn record_text_escapes_control_characters() {
    let rec = affiliation_record(&vec![(s("U\u{1}S"), s("20\t20"))]);
    assert_eq!(
        affiliation_line(&s("A\\1\n"), &rec),
        "{\"id\":\"A\\\\1\\n\",\"affs\":{\"20\\t20\":[\"U\\u0001S\"]}}"
    );
}
