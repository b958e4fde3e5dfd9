//! The record decoder for compressed shard files, the per-file transforms,
//! and the concatenative merge of per-worker outputs.
use vstd::prelude::*;
use crate::authors::{author_entry_of, extract_author, history_texts, AuthorIndex};
use crate::filter::{has_listed_author, lists_author};
use crate::json::{json_text, parse_json};
use crate::shard::{shard_count, shard_range};
use crate::work::{decode_work, work_of};
use vstd::utf8::valid_utf8;

verus! {

/// What flate2's gzip decoder makes of a compressed file: its content, or
/// `None` where the bytes are not a valid gzip stream.
pub uninterp spec fn gunzip_of(b: Seq<u8>) -> Option<Seq<u8>>;

/// Relies on flate2::read::GzDecoder, read to the end: decompresses one
/// gzip member; any error, `None`.
#[verifier::external_body]
fn gunzip(b: &[u8]) -> (r: Option<Vec<u8>>)
    ensures
        match r {
            Some(d) => gunzip_of(b@) == Some(d@),
            None => gunzip_of(b@) is None,
        },
{
    let mut out = Vec::new();
    match std::io::Read::read_to_end(&mut flate2::read::GzDecoder::new(b), &mut out) {
        Ok(_) => Some(out),
        Err(_) => None,
    }
}

/// The pieces of `s` between occurrences of `sep`.
pub open spec fn split_bytes(s: Seq<u8>, sep: u8) -> Seq<Seq<u8>>
    decreases s.len(),
{
    if s.len() == 0 {
        seq![Seq::empty()]
    } else {
        let p = split_bytes(s.drop_last(), sep);
        if s.last() == sep {
            p.push(Seq::empty())
        } else {
            p.update(p.len() - 1, p.last().push(s.last()))
        }
    }
}

/// The pieces that are not empty, in order.
pub open spec fn nonempty(p: Seq<Seq<u8>>) -> Seq<Seq<u8>>
    decreases p.len(),
{
    if p.len() == 0 {
        p
    } else if p.last().len() > 0 {
        nonempty(p.drop_last()).push(p.last())
    } else {
        nonempty(p.drop_last())
    }
}

/// The records of a decompressed file: its non-empty lines.
pub open spec fn lines_of(d: Seq<u8>) -> Seq<Seq<u8>> {
    nonempty(split_bytes(d, 10))
}

pub open spec fn byte_texts(v: Seq<Vec<u8>>) -> Seq<Seq<u8>> {
    v.map_values(|x: Vec<u8>| x@)
}

/// Splits decompressed content at each newline, as `str::split('\n')`
/// does: the pieces joined by newlines give the content back, and a
/// trailing newline leaves a last, empty piece.
pub fn split_lines(d: &[u8]) -> (r: Vec<Vec<u8>>)
    ensures
        byte_texts(r@) == split_bytes(d@, 10),
{
    let mut out: Vec<Vec<u8>> = Vec::new();
    let mut cur: Vec<u8> = Vec::new();
    let mut i: usize = 0;
    assert(d@.take(0) =~= Seq::<u8>::empty());
    assert(byte_texts(out@).push(cur@) =~= seq![Seq::<u8>::empty()]);
    while i < d.len()
        invariant
            0 <= i <= d@.len(),
            split_bytes(d@.take(i as int), 10) == byte_texts(out@).push(cur@),
        decreases d.len() - i,
    {
        let ghost t = d@.take(i + 1);
        assert(t.drop_last() =~= d@.take(i as int));
        assert(t.last() == d@[i as int]);
        let ghost prev = byte_texts(out@).push(cur@);
        if d[i] == 10 {
            let piece = cur;
            out.push(piece);
            cur = Vec::new();
            assert(byte_texts(out@).push(cur@) =~= prev.push(Seq::<u8>::empty()));
        } else {
            cur.push(d[i]);
            assert(byte_texts(out@).push(cur@) =~= prev.update(prev.len() - 1, prev.last().push(d@[i as int])));
        }
        i = i + 1;
    }
    assert(d@.take(d@.len() as int) =~= d@);
    let ghost before = out@;
    let ghost last = cur@;
    out.push(cur);
    assert(byte_texts(out@) =~= byte_texts(before).push(last));
    out
}

/// The pieces that are not empty, in order.
pub fn nonempty_lines(pieces: &Vec<Vec<u8>>) -> (r: Vec<Vec<u8>>)
    ensures
        byte_texts(r@) == nonempty(byte_texts(pieces@)),
{
    let ghost pv = byte_texts(pieces@);
    let mut out: Vec<Vec<u8>> = Vec::new();
    let mut i: usize = 0;
    assert(pv.take(0) =~= Seq::<Seq<u8>>::empty());
    while i < pieces.len()
        invariant
            pv == byte_texts(pieces@),
            0 <= i <= pv.len(),
            byte_texts(out@) == nonempty(pv.take(i as int)),
        decreases pv.len() - i,
    {
        assert(pv.take(i + 1).drop_last() =~= pv.take(i as int));
        assert(pv.take(i + 1).last() == pieces@[i as int]@);
        if pieces[i].len() > 0 {
            let ghost before = out@;
            out.push(pieces[i].clone());
            assert(byte_texts(out@) =~= byte_texts(before).push(pieces@[i as int]@));
        }
        i = i + 1;
    }
    assert(pv.take(pv.len() as int) =~= pv);
    out
}

/// Relies on std::str::from_utf8: succeeds exactly on valid UTF-8.
#[verifier::external_body]
fn is_utf8(b: &[u8]) -> (r: bool)
    ensures
        r == valid_utf8(b@),
{
    std::str::from_utf8(b).is_ok()
}

/// The lines of a compressed shard file, every piece between newlines
/// included; an error where the file does not decompress or its content is
/// not UTF-8 text.
pub fn decompress_gz_to_memory(compressed: &[u8]) -> (r: Result<Vec<Vec<u8>>, ShardError>)
    ensures
        match gunzip_of(compressed@) {
            None => r == Err::<Vec<Vec<u8>>, ShardError>(ShardError::Decompress),
            Some(d) => if valid_utf8(d) {
                match r {
                    Ok(v) => byte_texts(v@) == split_bytes(d, 10),
                    Err(_) => false,
                }
            } else {
                r == Err::<Vec<Vec<u8>>, ShardError>(ShardError::NotText)
            },
        },
{
    match gunzip(compressed) {
        Some(d) => if is_utf8(d.as_slice()) {
            Ok(split_lines(d.as_slice()))
        } else {
            Err(ShardError::NotText)
        },
        None => Err(ShardError::Decompress),
    }
}

/// Why a compressed shard file was passed over as a whole.
#[derive(Debug, PartialEq, Eq, Structural)]
pub enum ShardError {
    /// The file is not a valid gzip stream.
    Decompress,
    /// The decompressed content is not UTF-8 text.
    NotText,
    /// A non-empty line of the file is not JSON.
    Malformed,
}

/// Every line is JSON.
pub open spec fn all_json(ls: Seq<Seq<u8>>) -> bool {
    forall|i: int| 0 <= i < ls.len() ==> (#[trigger] json_text(ls[i])) is Some
}

/// The authors, with their raw histories, that a file's lines contribute,
/// in order.
pub open spec fn author_entries(ls: Seq<Seq<u8>>) -> Seq<(Seq<char>, Seq<(Seq<char>, Seq<char>)>)>
    decreases ls.len(),
{
    if ls.len() == 0 {
        Seq::empty()
    } else {
        let p = author_entries(ls.drop_last());
        match json_text(ls.last()) {
            Some(j) => match author_entry_of(j) {
                Some(e) => p.push(e),
                None => p,
            },
            None => p,
        }
    }
}

/// The lines of a file that hold a work with an author in `idx`, in order.
pub open spec fn listed_works(ls: Seq<Seq<u8>>, idx: Map<Seq<char>, Map<Seq<char>, Set<Seq<char>>>>) -> Seq<Seq<u8>>
    decreases ls.len(),
{
    if ls.len() == 0 {
        Seq::empty()
    } else {
        let p = listed_works(ls.drop_last(), idx);
        match json_text(ls.last()) {
            Some(j) => match work_of(j) {
                Some(w) => if lists_author(idx, w.authors) {
                    p.push(ls.last())
                } else {
                    p
                },
                None => p,
            },
            None => p,
        }
    }
}

/// The authors of one compressed shard file of the author corpus that have
/// an affiliation history, with that history, in the order of its lines.
/// Empty lines are passed over. The whole file is passed over where it does
/// not decompress, is not UTF-8 text, or one of its other lines is not JSON.
pub fn process_single_author_file(compressed: &[u8]) -> (r: Result<Vec<(String, Vec<(String, String)>)>, ShardError>)
    ensures
        match gunzip_of(compressed@) {
            None => r == Err::<Vec<(String, Vec<(String, String)>)>, ShardError>(ShardError::Decompress),
            Some(d) => if !valid_utf8(d) {
                r == Err::<Vec<(String, Vec<(String, String)>)>, ShardError>(ShardError::NotText)
            } else if all_json(lines_of(d)) {
                match r {
                    Ok(v) => v@.len() == author_entries(lines_of(d)).len() && forall|k: int|
                        0 <= k < v@.len() ==> (#[trigger] v@[k]).0@ == author_entries(lines_of(d))[k].0 && history_texts(v@[k].1@)
                            == author_entries(lines_of(d))[k].1,
                    Err(_) => false,
                }
            } else {
                r == Err::<Vec<(String, Vec<(String, String)>)>, ShardError>(ShardError::Malformed)
            },
        },
{
    let pieces = match decompress_gz_to_memory(compressed) {
        Ok(v) => v,
        Err(e) => return Err(e),
    };
    let lines = nonempty_lines(&pieces);
    let ghost d = gunzip_of(compressed@).unwrap();
    let ghost ls = lines_of(d);
    let mut out: Vec<(String, Vec<(String, String)>)> = Vec::new();
    let mut i: usize = 0;
    assert(ls.take(0) =~= Seq::<Seq<u8>>::empty());
    while i < lines.len()
        invariant
            ls == lines_of(d),
            gunzip_of(compressed@) == Some(d),
            valid_utf8(d),
            byte_texts(lines@) == ls,
            0 <= i <= ls.len(),
            all_json(ls.take(i as int)),
            out@.len() == author_entries(ls.take(i as int)).len(),
            forall|k: int|
                0 <= k < out@.len() ==> (#[trigger] out@[k]).0@ == author_entries(ls.take(i as int))[k].0 && history_texts(out@[k].1@)
                    == author_entries(ls.take(i as int))[k].1,
        decreases ls.len() - i,
    {
        assert(ls.take(i + 1).drop_last() =~= ls.take(i as int));
        assert(ls.take(i + 1).last() == lines@[i as int]@);
        match parse_json(lines[i].as_slice()) {
            Some(j) => {
                match extract_author(&j) {
                    Some(e) => {
                        out.push(e);
                    },
                    None => {},
                }
                assert(all_json(ls.take(i + 1))) by {
                    assert forall|k: int| 0 <= k < i + 1 implies (#[trigger] json_text(ls.take(i + 1)[k])) is Some by {
                        if k < i {
                            assert(ls.take(i + 1)[k] == ls.take(i as int)[k]);
                        }
                    }
                }
            },
            None => {
                assert(!all_json(ls)) by {
                    assert(ls[i as int] == lines@[i as int]@);
                    assert(json_text(ls[i as int]) is None);
                }
                return Err(ShardError::Malformed);
            },
        }
        i = i + 1;
    }
    assert(ls.take(ls.len() as int) =~= ls);
    Ok(out)
}

/// The lines of one compressed shard file of the work corpus that hold a
/// work with an author in the index, in order. Empty lines are passed over.
/// The whole file is passed over where it does not decompress, is not UTF-8
/// text, or one of its other lines is not JSON.
pub fn process_single_work_file(compressed: &[u8], idx: &AuthorIndex) -> (r: Result<Vec<Vec<u8>>, ShardError>)
    ensures
        match gunzip_of(compressed@) {
            None => r == Err::<Vec<Vec<u8>>, ShardError>(ShardError::Decompress),
            Some(d) => if !valid_utf8(d) {
                r == Err::<Vec<Vec<u8>>, ShardError>(ShardError::NotText)
            } else if all_json(lines_of(d)) {
                match r {
                    Ok(v) => byte_texts(v@) == listed_works(lines_of(d), idx.records()),
                    Err(_) => false,
                }
            } else {
                r == Err::<Vec<Vec<u8>>, ShardError>(ShardError::Malformed)
            },
        },
{
    let pieces = match decompress_gz_to_memory(compressed) {
        Ok(v) => v,
        Err(e) => return Err(e),
    };
    let lines = nonempty_lines(&pieces);
    let ghost d = gunzip_of(compressed@).unwrap();
    let ghost ls = lines_of(d);
    let mut out: Vec<Vec<u8>> = Vec::new();
    let mut i: usize = 0;
    assert(ls.take(0) =~= Seq::<Seq<u8>>::empty());
    while i < lines.len()
        invariant
            ls == lines_of(d),
            gunzip_of(compressed@) == Some(d),
            valid_utf8(d),
            byte_texts(lines@) == ls,
            0 <= i <= ls.len(),
            all_json(ls.take(i as int)),
            byte_texts(out@) == listed_works(ls.take(i as int), idx.records()),
        decreases ls.len() - i,
    {
        assert(ls.take(i + 1).drop_last() =~= ls.take(i as int));
        assert(ls.take(i + 1).last() == lines@[i as int]@);
        match parse_json(lines[i].as_slice()) {
            Some(j) => {
                let keep = match decode_work(&j) {
                    Some(w) => has_listed_author(&w, idx),
                    None => false,
                };
                if keep {
                    let ghost before = out@;
                    out.push(lines[i].clone());
                    assert(byte_texts(out@) =~= byte_texts(before).push(lines@[i as int]@));
                }
                assert(all_json(ls.take(i + 1))) by {
                    assert forall|k: int| 0 <= k < i + 1 implies (#[trigger] json_text(ls.take(i + 1)[k])) is Some by {
                        if k < i {
                            assert(ls.take(i + 1)[k] == ls.take(i as int)[k]);
                        }
                    }
                }
            },
            None => {
                assert(!all_json(ls)) by {
                    assert(ls[i as int] == lines@[i as int]@);
                    assert(json_text(ls[i as int]) is None);
                }
                return Err(ShardError::Malformed);
            },
        }
        i = i + 1;
    }
    assert(ls.take(ls.len() as int) =~= ls);
    Ok(out)
}

/// The pieces one after another.
pub open spec fn flatten<A>(s: Seq<Seq<A>>) -> Seq<A>
    decreases s.len(),
{
    if s.len() == 0 {
        Seq::empty()
    } else {
        flatten(s.drop_last()) + s.last()
    }
}

/// Appends the workers' outputs in worker order.
pub fn concat_parts(parts: &Vec<Vec<u8>>) -> (r: Vec<u8>)
    ensures
        r@ == flatten(byte_texts(parts@)),
{
    let ghost pv = byte_texts(parts@);
    let mut out: Vec<u8> = Vec::new();
    let mut i: usize = 0;
    assert(pv.take(0) =~= Seq::<Seq<u8>>::empty());
    while i < parts.len()
        invariant
            pv == byte_texts(parts@),
            0 <= i <= pv.len(),
            out@ == flatten(pv.take(i as int)),
        decreases pv.len() - i,
    {
        let part = &parts[i];
        let ghost base = out@;
        let mut k: usize = 0;
        while k < part.len()
            invariant
                0 <= k <= part@.len(),
                out@ == base + part@.take(k as int),
            decreases part.len() - k,
        {
            out.push(part[k]);
            assert(part@.take(k + 1) =~= part@.take(k as int).push(part@[k as int]));
            k = k + 1;
        }
        assert(part@.take(part@.len() as int) =~= part@);
        assert(pv.take(i + 1).drop_last() =~= pv.take(i as int));
        i = i + 1;
    }
    assert(pv.take(pv.len() as int) =~= pv);
    out
}

proof fn lemma_flatten_append<A>(a: Seq<Seq<A>>, b: Seq<Seq<A>>)
    ensures
        flatten(a + b) == flatten(a) + flatten(b),
    decreases b.len(),
{
    if b.len() == 0 {
        assert(a + b =~= a);
        assert(flatten(a) + flatten(b) =~= flatten(a));
    } else {
        lemma_flatten_append(a, b.drop_last());
        assert((a + b).drop_last() =~= a + b.drop_last());
        assert(flatten(a) + flatten(b.drop_last()) + b.last() =~= flatten(a) + (flatten(b.drop_last()) + b.last()));
    }
}

/// What worker `i` of `count` writes: the outputs of the records of its
/// shard, one after another.
pub open spec fn shard_output<R>(records: Seq<R>, f: spec_fn(R) -> Seq<u8>, count: nat, i: nat) -> Seq<u8> {
    let range = shard_range(records.len(), count, i);
    flatten(records.subrange(range.0 as int, range.1 as int).map_values(f))
}

/// The merged output of a run with `workers` workers: every worker's output
/// in worker order.
pub open spec fn merged_output<R>(records: Seq<R>, f: spec_fn(R) -> Seq<u8>, workers: nat) -> Seq<u8> {
    let count = shard_count(records.len(), workers);
    flatten(Seq::new(count, |i: int| shard_output(records, f, count, i as nat)))
}

/// Where each record's output is complete in itself, merging the workers'
/// outputs in worker order gives the same bytes as one worker would write,
/// whatever the number of workers: nothing is lost or written twice.
pub proof fn lemma_concat_merge<R>(records: Seq<R>, f: spec_fn(R) -> Seq<u8>, workers: nat)
    requires
        1 <= workers <= records.len(),
    ensures
        merged_output(records, f, workers) == flatten(records.map_values(f)),
{
    crate::shard::lemma_shards_partition(records.len(), workers);
    let n = workers;
    let outs = Seq::new(n, |i: int| shard_output(records, f, n, i as nat));
    assert forall|k: nat| k <= n implies #[trigger] flatten(outs.take(k as int)) == flatten(
        records.subrange(0, if k == 0 { 0 } else { shard_range(records.len(), n, (k - 1) as nat).1 as int }).map_values(f),
    ) by {
        lemma_concat_prefix(records, f, n, k);
    }
    assert(outs.take(n as int) =~= outs);
    assert(records.subrange(0, records.len() as int) =~= records);
}

#[verifier::rlimit(40)]
proof fn lemma_concat_prefix<R>(records: Seq<R>, f: spec_fn(R) -> Seq<u8>, n: nat, k: nat)
    requires
        1 <= n <= records.len(),
        k <= n,
    ensures
        flatten(Seq::new(n, |i: int| shard_output(records, f, n, i as nat)).take(k as int)) == flatten(
            records.subrange(0, if k == 0 { 0 } else { shard_range(records.len(), n, (k - 1) as nat).1 as int }).map_values(f),
        ),
    decreases k,
{
    crate::shard::lemma_shards_partition(records.len(), n);
    let outs = Seq::new(n, |i: int| shard_output(records, f, n, i as nat));
    if k == 0 {
        assert(outs.take(0) =~= Seq::<Seq<u8>>::empty());
        assert(records.subrange(0, 0).map_values(f) =~= Seq::<Seq<u8>>::empty());
    } else {
        lemma_concat_prefix(records, f, n, (k - 1) as nat);
        let lo = shard_range(records.len(), n, (k - 1) as nat).0;
        let hi = shard_range(records.len(), n, (k - 1) as nat).1;
        let prev_end: int = if k == 1 { 0 } else { shard_range(records.len(), n, (k - 2) as nat).1 as int };
        assert(prev_end == lo) by {
            if k >= 2 {
                assert(shard_range(records.len(), n, (k - 2) as nat).1 == shard_range(records.len(), n, ((k - 2) + 1) as nat).0);
            }
        }
        assert(lo < hi);
        assert(hi <= records.len());
        assert(outs.take(k as int) =~= outs.take((k - 1) as int).push(outs[(k - 1) as int]));
        assert(outs.take(k as int).drop_last() =~= outs.take((k - 1) as int));
        assert(outs.take(k as int).last() == outs[(k - 1) as int]);
        let a = records.subrange(0, lo as int).map_values(f);
        let b = records.subrange(lo as int, hi as int).map_values(f);
        assert(records.subrange(0, hi as int).map_values(f) =~= a + b);
        lemma_flatten_append(a, b);
        assert(flatten(outs.take(k as int)) == flatten(outs.take((k - 1) as int)) + outs[(k - 1) as int]);
    }
}

} // verus!
