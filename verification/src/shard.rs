use crate::chars::{push_char, texts};
use crate::text::{trim, trimmed};
use crate::tokens::{fields, split_on};
use vstd::prelude::*;
use vstd::std_specs::convert::FromSpecImpl;
use vstd::string::*;

verus! {

/// Largest numerator or denominator of a weight that is turned into a byte:
/// 2^100.
pub const MAX_SCALE: u128 = 1267650600228229401496703205376;

/// What a line of the input holds.
#[derive(PartialEq, Eq, Clone, Copy, Debug, Structural)]
pub enum QueryType {
    /// A query.
    Q,
    /// The words of a title or of a URL.
    TUW,
}

/// The kind of line that a prefix stands for: `qe` and `q` mark a query.
pub open spec fn kind_of(prefix: Seq<char>) -> QueryType {
    if prefix == "qe"@ || prefix == "q"@ {
        QueryType::Q
    } else {
        QueryType::TUW
    }
}

impl From<String> for QueryType {
    fn from(prefix: String) -> (r: Self) {
        let qe = String::from_str("qe");
        let q = String::from_str("q");
        if prefix == qe || prefix == q {
            QueryType::Q
        } else {
            QueryType::TUW
        }
    }
}

impl FromSpecImpl<String> for QueryType {
    open spec fn obeys_from_spec() -> bool {
        true
    }

    open spec fn from_spec(prefix: String) -> Self {
        kind_of(prefix@)
    }
}

/// Each field without the whitespace around it.
pub open spec fn trimmed_all(fs: Seq<Seq<char>>) -> Seq<Seq<char>> {
    Seq::new(fs.len(), |i: int| trimmed(fs[i]))
}

/// The words from `from` up to `to`, with a space between each two.
pub open spec fn spaced_range(ws: Seq<Seq<char>>, from: int, to: int) -> Seq<char>
    decreases to - from,
{
    if to <= from {
        Seq::empty()
    } else if to == from + 1 {
        ws[from]
    } else {
        spaced_range(ws, from, to - 1) + seq![' '] + ws[to - 1]
    }
}

/// The parts of the first column of a line: its fields between colons, each
/// without the whitespace around it.
pub open spec fn column_parts(line: Seq<char>) -> Seq<Seq<char>> {
    trimmed_all(fields(trimmed(fields(line, '\t')[0]), ':'))
}

/// The prefix and the query of a line. A first column without a colon is a
/// query with the prefix `qe`; with one colon it is prefix and query; with
/// more, the query is what stands between the first part and the last.
pub open spec fn line_parts(line: Seq<char>) -> (Seq<char>, Seq<char>) {
    let v = column_parts(line);
    if v.len() == 1 {
        ("qe"@, v[0])
    } else if v.len() == 2 {
        (v[0], v[1])
    } else {
        (v[0], spaced_range(v, 1, v.len() - 1))
    }
}

/// The prefix and the query of a line of the input.
pub fn split_line(line: &str) -> (r: (String, String))
    ensures
        (r.0@, r.1@) == line_parts(line@),
{
    let columns = split_on(line, '\t');
    let first = trim(columns[0].as_str());
    let raw = split_on(first.as_str(), ':');
    let mut v: Vec<String> = Vec::new();
    let mut i: usize = 0;
    while i < raw.len()
        invariant
            i <= raw.len(),
            v.len() == i,
            forall|q: int| 0 <= q < i ==> (#[trigger] v@[q])@ == trimmed(texts(raw@)[q]),
        decreases raw.len() - i,
    {
        v.push(trim(raw[i].as_str()));
        i += 1;
    }
    assert(texts(v@) =~= column_parts(line@));
    if v.len() == 1 {
        (String::from_str("qe"), v[0].clone())
    } else if v.len() == 2 {
        (v[0].clone(), v[1].clone())
    } else {
        let mut query = v[1].clone();
        let mut k: usize = 2;
        while k < v.len() - 1
            invariant
                2 <= k <= v.len() - 1,
                query@ == spaced_range(texts(v@), 1, k as int),
            decreases v.len() - k,
        {
            proof {
                reveal_strlit(" ");
            }
            query.append(" ");
            query.append(v[k].as_str());
            k += 1;
        }
        (v[0].clone(), query)
    }
}

/// The place of a query in its shard and the shard it lies in: quotient and
/// remainder of the query's number by the number of shards.
pub fn qid2pqid(qid: u64, nr_shards: usize) -> (r: (u64, u64))
    requires
        nr_shards > 0,
    ensures
        r.0 == qid as int / nr_shards as int,
        r.1 == qid as int % nr_shards as int,
{
    let n = nr_shards as u64;
    (qid / n, qid % n)
}

/// A weight in hundredths, rounded to the nearest, as a byte: 255 for any
/// that is larger.
pub open spec fn hundredths(num: int, den: int) -> int {
    let x = (200 * num + den) / (2 * den);
    if x > 255 {
        255
    } else {
        x
    }
}

/// The byte that stands for the weight `num / den` in a shard file.
pub fn weight_byte(num: u128, den: u128) -> (r: u8)
    requires
        0 < den <= MAX_SCALE,
        num <= MAX_SCALE,
    ensures
        r == hundredths(num as int, den as int),
{
    let x = (200 * num + den) / (2 * den);
    if x > 255 {
        255
    } else {
        x as u8
    }
}

/// The character of a decimal digit.
pub open spec fn digit_char(d: int) -> char {
    if d == 0 {
        '0'
    } else if d == 1 {
        '1'
    } else if d == 2 {
        '2'
    } else if d == 3 {
        '3'
    } else if d == 4 {
        '4'
    } else if d == 5 {
        '5'
    } else if d == 6 {
        '6'
    } else if d == 7 {
        '7'
    } else if d == 8 {
        '8'
    } else {
        '9'
    }
}

/// A number in decimal digits.
pub open spec fn decimal(n: nat) -> Seq<char>
    decreases n,
{
    if n < 10 {
        seq![digit_char(n as int)]
    } else {
        decimal(n / 10).push(digit_char((n % 10) as int))
    }
}

fn digit_of(d: u64) -> (c: char)
    requires
        d < 10,
    ensures
        c == digit_char(d as int),
{
    if d == 0 {
        '0'
    } else if d == 1 {
        '1'
    } else if d == 2 {
        '2'
    } else if d == 3 {
        '3'
    } else if d == 4 {
        '4'
    } else if d == 5 {
        '5'
    } else if d == 6 {
        '6'
    } else if d == 7 {
        '7'
    } else if d == 8 {
        '8'
    } else {
        '9'
    }
}

/// Writes a number in decimal digits behind a text.
pub fn push_decimal(out: &mut String, n: u64)
    ensures
        final(out)@ == old(out)@ + decimal(n as nat),
    decreases n,
{
    if n < 10 {
        push_char(out, digit_of(n));
    } else {
        push_decimal(out, n / 10);
        push_char(out, digit_of(n % 10));
    }
}

/// A line of a shard file: the place of the query in its shard, the shard of
/// the query, the n-gram and the byte of its weight, with tabs between them
/// and a line feed behind.
pub open spec fn shard_line_text(pqid: nat, reminder: nat, ngram: Seq<char>, weight: nat) -> Seq<
    char,
> {
    decimal(pqid) + seq!['\t'] + decimal(reminder) + seq!['\t'] + ngram + seq!['\t'] + decimal(
        weight,
    ) + seq!['\n']
}

/// The line that a shard file gets for one n-gram of a query.
pub fn shard_line(pqid: u64, reminder: u64, ngram: &str, weight: u8) -> (r: String)
    ensures
        r@ == shard_line_text(pqid as nat, reminder as nat, ngram@, weight as nat),
{
    let mut out = String::new();
    push_decimal(&mut out, pqid);
    push_char(&mut out, '\t');
    push_decimal(&mut out, reminder);
    push_char(&mut out, '\t');
    out.append(ngram);
    push_char(&mut out, '\t');
    push_decimal(&mut out, weight as u64);
    push_char(&mut out, '\n');
    out
}

/// Why a range of shards cannot be used.
#[derive(PartialEq, Eq, Clone, Copy, Debug, Structural)]
pub enum ShardRangeError {
    /// A start was given without an end.
    MissingEnd,
    /// The end does not lie behind the start.
    EndNotAfterStart,
}

/// The range of shards to look into: all of them (`None`) where no start is
/// given, else from the start up to the end, which must be given and lie
/// behind the start.
pub fn select_shards(start: Option<u32>, end: Option<u32>) -> (r: Result<
    Option<(u32, u32)>,
    ShardRangeError,
>)
    ensures
        start is None ==> r == Ok::<Option<(u32, u32)>, ShardRangeError>(None),
        start is Some && end is None ==> r == Err::<Option<(u32, u32)>, ShardRangeError>(
            ShardRangeError::MissingEnd,
        ),
        start is Some && end is Some && end->0 <= start->0 ==> r == Err::<
            Option<(u32, u32)>,
            ShardRangeError,
        >(ShardRangeError::EndNotAfterStart),
        start is Some && end is Some && end->0 > start->0 ==> r == Ok::<
            Option<(u32, u32)>,
            ShardRangeError,
        >(Some((start->0, end->0))),
{
    match start {
        None => Ok(None),
        Some(s) => match end {
            None => Err(ShardRangeError::MissingEnd),
            Some(e) => if e > s {
                Ok(Some((s, e)))
            } else {
                Err(ShardRangeError::EndNotAfterStart)
            },
        },
    }
}

} // verus!
