//! Character-level text handling: decimal numbers, splitting and joining.
use vstd::prelude::*;
use vstd::std_specs::iter::IteratorSpec;

verus! {

/// The characters of a string, in order.
pub fn chars_of(s: &str) -> (r: Vec<char>)
    ensures
        r@ == s@,
{
    broadcast use vstd::string::axiom_spec_iter, vstd::string::next_postcondition;

    let mut it = s.chars();
    let mut out: Vec<char> = Vec::new();
    loop
        invariant
            it.obeys_prophetic_iter_laws(),
            it.decrease() is Some,
            out@ + it.remaining() == s@,
        ensures
            out@ == s@,
        decreases it.decrease()->0,
    {
        match it.next() {
            Some(c) => {
                let ghost rest = it.remaining();
                out.push(c);
                proof {
                    assert(out@ + rest =~= s@) by {
                        assert(out@ =~= out@.drop_last().push(c));
                    }
                }
            },
            None => {
                assert(out@ =~= s@);
                break;
            },
        }
    }
    out
}

/// Relies on collecting characters into a String (std's
/// `FromIterator<char>`): the string holds exactly those characters.
#[verifier::external_body]
pub(crate) fn string_of(c: &[char]) -> (r: String)
    ensures
        r@ == c@,
{
    c.iter().collect()
}

pub open spec fn is_digit(c: char) -> bool {
    '0' <= c <= '9'
}

pub open spec fn digit_value(c: char) -> nat {
    (c as u32 - '0' as u32) as nat
}

/// The value of a string of decimal digits.
pub open spec fn digits_value(s: Seq<char>) -> nat
    decreases s.len(),
{
    if s.len() == 0 {
        0
    } else {
        digits_value(s.drop_last()) * 10 + digit_value(s.last())
    }
}

pub open spec fn all_digits(s: Seq<char>) -> bool {
    forall|i: int| 0 <= i < s.len() ==> is_digit(#[trigger] s[i])
}

/// What std's `str::parse::<u64>` accepts: an optional `+`, then one or
/// more decimal digits whose value fits in 64 bits.
pub open spec fn u64_of_text(s: Seq<char>) -> Option<u64> {
    let d = if s.len() > 0 && s[0] == '+' {
        s.drop_first()
    } else {
        s
    };
    if d.len() > 0 && all_digits(d) && digits_value(d) <= u64::MAX {
        Some(digits_value(d) as u64)
    } else {
        None
    }
}

/// Reads a decimal number as std's `str::parse::<u64>` does.
pub fn parse_u64(s: &str) -> (r: Option<u64>)
    ensures
        r == u64_of_text(s@),
{
    let c = chars_of(s);
    let start: usize = if c.len() > 0 && c[0] == '+' {
        1
    } else {
        0
    };
    let ghost d = if s@.len() > 0 && s@[0] == '+' {
        s@.drop_first()
    } else {
        s@
    };
    assert(d =~= c@.skip(start as int));
    if start == c.len() {
        return None;
    }
    let mut acc: u64 = 0;
    let mut over = false;
    let mut i: usize = start;
    while i < c.len()
        invariant
            start <= i <= c@.len(),
            d == c@.skip(start as int),
            d.len() > 0,
            u64_of_text(s@) == (if all_digits(d) && digits_value(d) <= u64::MAX {
                Some(digits_value(d) as u64)
            } else {
                None
            }),
            all_digits(d.take(i - start)),
            !over ==> acc as nat == digits_value(d.take(i - start)),
            over ==> digits_value(d.take(i - start)) > u64::MAX,
        decreases c.len() - i,
    {
        let ch = c[i];
        assert(d.take(i + 1 - start).drop_last() =~= d.take(i - start));
        assert(d.take(i + 1 - start).last() == ch);
        if !('0' <= ch && ch <= '9') {
            assert(!is_digit(d[i - start]));
            assert(!all_digits(d));
            return None;
        }
        let v = (ch as u32 - '0' as u32) as u64;
        if !over {
            if acc > (u64::MAX - v) / 10 {
                over = true;
            } else {
                acc = acc * 10 + v;
            }
        }
        i = i + 1;
    }
    assert(d.take(c.len() - start) =~= d);
    if over {
        None
    } else {
        Some(acc)
    }
}

/// True when the text is a number that `str::parse::<u64>` accepts.
pub fn is_u64(s: &str) -> (r: bool)
    ensures
        r == (u64_of_text(s@) is Some),
{
    parse_u64(s).is_some()
}

pub open spec fn digit_char(d: nat) -> char
    recommends
        d < 10,
{
    ((d + 48) as u8) as char
}

/// The decimal digits of `n`, without leading zeros.
pub open spec fn digits_of(n: nat) -> Seq<char>
    decreases n,
{
    if n < 10 {
        seq![digit_char(n)]
    } else {
        digits_of(n / 10).push(digit_char(n % 10))
    }
}

/// The decimal text of an integer, with a `-` before a negative one.
pub open spec fn int_text(n: int) -> Seq<char> {
    if n < 0 {
        seq!['-'] + digits_of((-n) as nat)
    } else {
        digits_of(n as nat)
    }
}

fn push_digits(out: &mut Vec<char>, n: u64)
    ensures
        final(out)@ == old(out)@ + digits_of(n as nat),
{
    let mut m: u64 = n;
    let mut tail: Vec<char> = Vec::new();
    while m >= 10
        invariant
            digits_of(n as nat) == digits_of(m as nat) + tail@,
        decreases m,
    {
        let c = ((m % 10) as u8 + 48u8) as char;
        assert(c == digit_char((m % 10) as nat));
        let ghost before = tail@;
        tail.insert(0, c);
        assert(digits_of(m as nat) == digits_of((m / 10) as nat).push(c));
        assert(digits_of(m as nat) + before =~= digits_of((m / 10) as nat) + tail@) by {
            assert(tail@ =~= seq![c] + before);
        }
        m = m / 10;
    }
    let c = (m as u8 + 48u8) as char;
    assert(digits_of(m as nat) == seq![c]);
    out.push(c);
    let mut j: usize = 0;
    let ghost base = out@;
    while j < tail.len()
        invariant
            0 <= j <= tail@.len(),
            out@ == base + tail@.take(j as int),
        decreases tail.len() - j,
    {
        out.push(tail[j]);
        assert(tail@.take(j + 1) =~= tail@.take(j as int).push(tail@[j as int]));
        j = j + 1;
    }
    assert(tail@.take(tail@.len() as int) =~= tail@);
}

/// The decimal text of a signed integer, as std's `to_string` writes it.
pub fn i64_text(n: i64) -> (r: Vec<char>)
    ensures
        r@ == int_text(n as int),
{
    let mut out: Vec<char> = Vec::new();
    if n < 0 {
        out.push('-');
        let m: u64 = (-(n as i128)) as u64;
        push_digits(&mut out, m);
        assert(out@ =~= seq!['-'] + digits_of(m as nat));
    } else {
        push_digits(&mut out, n as u64);
        assert(out@ =~= digits_of(n as nat));
    }
    out
}

/// The decimal text of an unsigned integer, as std's `to_string` writes it.
pub fn u64_text(n: u64) -> (r: Vec<char>)
    ensures
        r@ == int_text(n as int),
{
    let mut out: Vec<char> = Vec::new();
    push_digits(&mut out, n);
    assert(out@ =~= digits_of(n as nat));
    out
}

/// The views of a sequence of character vectors.
pub open spec fn char_texts(v: Seq<Vec<char>>) -> Seq<Seq<char>> {
    v.map_values(|x: Vec<char>| x@)
}

/// The pieces of `s` between occurrences of `sep`, as std's `str::split`
/// gives them: one more piece than there are separators.
pub open spec fn split(s: Seq<char>, sep: char) -> Seq<Seq<char>>
    decreases s.len(),
{
    if s.len() == 0 {
        seq![Seq::empty()]
    } else {
        let p = split(s.drop_last(), sep);
        if s.last() == sep {
            p.push(Seq::empty())
        } else {
            p.update(p.len() - 1, p.last().push(s.last()))
        }
    }
}

/// The pieces joined, with `sep` between each two.
pub open spec fn join(p: Seq<Seq<char>>, sep: Seq<char>) -> Seq<char>
    decreases p.len(),
{
    if p.len() == 0 {
        Seq::empty()
    } else if p.len() == 1 {
        p[0]
    } else {
        join(p.drop_last(), sep) + sep + p.last()
    }
}

/// `s` without `prefix` in front, where it starts with it.
pub open spec fn strip_prefix(s: Seq<char>, prefix: Seq<char>) -> Seq<char> {
    if prefix.len() <= s.len() && s.take(prefix.len() as int) == prefix {
        s.skip(prefix.len() as int)
    } else {
        s
    }
}

/// `s` with each `from` replaced by `to`.
pub open spec fn replace_char(s: Seq<char>, from: char, to: char) -> Seq<char> {
    s.map_values(|c: char| if c == from { to } else { c })
}

pub proof fn lemma_split_len(s: Seq<char>, sep: char)
    ensures
        split(s, sep).len() >= 1,
    decreases s.len(),
{
    if s.len() > 0 {
        lemma_split_len(s.drop_last(), sep);
    }
}

/// No piece of a split holds the separator.
pub proof fn lemma_split_pieces(s: Seq<char>, sep: char)
    ensures
        forall|i: int| 0 <= i < split(s, sep).len() ==> !(#[trigger] split(s, sep)[i]).contains(sep),
    decreases s.len(),
{
    lemma_split_len(s, sep);
    if s.len() > 0 {
        lemma_split_pieces(s.drop_last(), sep);
        lemma_split_len(s.drop_last(), sep);
        let p = split(s.drop_last(), sep);
        if s.last() != sep {
            let q = p.last().push(s.last());
            assert(!p[p.len() - 1].contains(sep));
            assert forall|k: int| 0 <= k < q.len() implies q[k] != sep by {
                if k < q.len() - 1 {
                    assert(q[k] == p.last()[k]);
                    assert(p.last().contains(p.last()[k]));
                }
            }
        }
    }
}

/// Appends the characters of `s`.
pub(crate) fn push_str(out: &mut Vec<char>, s: &str)
    ensures
        final(out)@ == old(out)@ + s@,
{
    let c = chars_of(s);
    let ghost base = out@;
    let mut i: usize = 0;
    while i < c.len()
        invariant
            0 <= i <= c@.len(),
            c@ == s@,
            out@ == base + c@.take(i as int),
        decreases c.len() - i,
    {
        out.push(c[i]);
        assert(c@.take(i + 1) =~= c@.take(i as int).push(c@[i as int]));
        i = i + 1;
    }
    assert(c@.take(c@.len() as int) =~= c@);
}

/// Appends the characters of `s`.
pub(crate) fn push_chars(out: &mut Vec<char>, s: &Vec<char>)
    ensures
        final(out)@ == old(out)@ + s@,
{
    let ghost base = out@;
    let mut i: usize = 0;
    while i < s.len()
        invariant
            0 <= i <= s@.len(),
            out@ == base + s@.take(i as int),
        decreases s.len() - i,
    {
        out.push(s[i]);
        assert(s@.take(i + 1) =~= s@.take(i as int).push(s@[i as int]));
        i = i + 1;
    }
    assert(s@.take(s@.len() as int) =~= s@);
}

/// Splits text at each `sep`.
pub fn split_text(s: &str, sep: char) -> (r: Vec<Vec<char>>)
    ensures
        char_texts(r@) == split(s@, sep),
{
    let c = chars_of(s);
    let mut out: Vec<Vec<char>> = Vec::new();
    let mut cur: Vec<char> = Vec::new();
    let mut i: usize = 0;
    assert(c@.take(0) =~= Seq::<char>::empty());
    assert(char_texts(out@).push(cur@) =~= seq![Seq::<char>::empty()]);
    while i < c.len()
        invariant
            0 <= i <= c@.len(),
            c@ == s@,
            char_texts(out@).push(cur@) == split(c@.take(i as int), sep),
        decreases c.len() - i,
    {
        let ghost t = c@.take(i + 1);
        assert(t.drop_last() =~= c@.take(i as int));
        assert(t.last() == c@[i as int]);
        let ghost prev = char_texts(out@).push(cur@);
        if c[i] == sep {
            let done = cur;
            out.push(done);
            cur = Vec::new();
            assert(char_texts(out@).push(cur@) =~= prev.push(Seq::empty()));
        } else {
            cur.push(c[i]);
            assert(char_texts(out@).push(cur@) =~= prev.update(prev.len() - 1, prev.last().push(c@[i as int])));
        }
        i = i + 1;
    }
    assert(c@.take(c@.len() as int) =~= c@);
    out.push(cur);
    out
}

/// Joins strings with `sep` between each two.
pub fn join_texts(p: &Vec<String>, sep: char) -> (r: Vec<char>)
    ensures
        r@ == join(p@.map_values(|s: String| s@), seq![sep]),
{
    let ghost v = p@.map_values(|s: String| s@);
    let mut out: Vec<char> = Vec::new();
    let mut i: usize = 0;
    while i < p.len()
        invariant
            0 <= i <= p@.len(),
            v == p@.map_values(|s: String| s@),
            out@ == join(v.take(i as int), seq![sep]),
        decreases p.len() - i,
    {
        assert(v.take(i + 1).drop_last() =~= v.take(i as int));
        if i > 0 {
            out.push(sep);
        }
        push_str(&mut out, p[i].as_str());
        assert(out@ =~= join(v.take(i + 1), seq![sep]));
        i = i + 1;
    }
    assert(v.take(p@.len() as int) =~= v);
    out
}

/// The text without `prefix` in front, where it starts with it.
pub fn strip_prefix_text(s: &str, prefix: &str) -> (r: Vec<char>)
    ensures
        r@ == strip_prefix(s@, prefix@),
{
    let c = chars_of(s);
    let p = chars_of(prefix);
    let mut starts = p.len() <= c.len();
    let mut i: usize = 0;
    if starts {
        assert(c@.take(0) =~= p@.take(0));
        while i < p.len()
            invariant
                p@.len() <= c@.len(),
                0 <= i <= p@.len(),
                starts <==> c@.take(i as int) == p@.take(i as int),
            decreases p.len() - i,
        {
            assert(c@.take(i + 1) =~= c@.take(i as int).push(c@[i as int]));
            assert(p@.take(i + 1) =~= p@.take(i as int).push(p@[i as int]));
            if c[i] != p[i] {
                starts = false;
            }
            if !starts {
                assert(c@.take(i + 1) != p@.take(i + 1)) by {
                    if c@.take(i + 1) == p@.take(i + 1) {
                        assert(c@.take(i + 1).drop_last() =~= c@.take(i as int));
                        assert(p@.take(i + 1).drop_last() =~= p@.take(i as int));
                        assert(c@.take(i + 1)[i as int] == p@.take(i + 1)[i as int]);
                    }
                }
            }
            i = i + 1;
        }
        assert(p@.take(p@.len() as int) =~= p@);
    }
    let skip: usize = if starts {
        p.len()
    } else {
        0
    };
    let mut out: Vec<char> = Vec::new();
    let mut k: usize = skip;
    while k < c.len()
        invariant
            skip <= k <= c@.len(),
            out@ == c@.subrange(skip as int, k as int),
        decreases c.len() - k,
    {
        out.push(c[k]);
        assert(c@.subrange(skip as int, k + 1) =~= c@.subrange(skip as int, k as int).push(c@[k as int]));
        k = k + 1;
    }
    assert(c@.subrange(skip as int, c@.len() as int) =~= c@.skip(skip as int));
    assert(c@.skip(0) =~= c@);
    out
}

/// The text with each `from` written `to`.
pub fn replace_text(s: &str, from: char, to: char) -> (r: Vec<char>)
    ensures
        r@ == replace_char(s@, from, to),
{
    let c = chars_of(s);
    let mut out: Vec<char> = Vec::new();
    let mut i: usize = 0;
    while i < c.len()
        invariant
            0 <= i <= c@.len(),
            c@ == s@,
            out@ == replace_char(c@.take(i as int), from, to),
        decreases c.len() - i,
    {
        let ch = if c[i] == from {
            to
        } else {
            c[i]
        };
        out.push(ch);
        assert(replace_char(c@.take(i + 1), from, to) =~= replace_char(c@.take(i as int), from, to).push(ch));
        i = i + 1;
    }
    assert(c@.take(c@.len() as int) =~= c@);
    out
}

} // verus!
