use vstd::prelude::*;

use crate::chunk::line_start;
use crate::data::{merge_maps, record_map, Data};
use crate::measurements::Measurements;
use crate::record::{
    reading_tenths, station_of, token_of, try_parse_line, valid_line,
};

verus! {

/// The length of the first line of `s`: the bytes before its first
/// terminator, or all of `s` if it has none.
pub open spec fn line_len(s: Seq<u8>) -> int
    decreases s.len(),
{
    if s.len() == 0 || s[0] == 10u8 {
        0
    } else {
        1 + line_len(s.drop_first())
    }
}

/// What follows the first line of `s` and its terminator.
pub open spec fn after_line(s: Seq<u8>) -> Seq<u8> {
    let q = line_len(s);
    if 0 <= q < s.len() {
        s.subrange(q + 1, s.len() as int)
    } else {
        Seq::empty()
    }
}

/// `m` after one line: unchanged for an empty line, the reading recorded for
/// a record line, `None` for anything else.
pub open spec fn step_line(m: Map<Seq<u8>, Measurements>, line: Seq<u8>) -> Option<
    Map<Seq<u8>, Measurements>,
> {
    if line.len() == 0 {
        Some(m)
    } else if valid_line(line) {
        Some(record_map(m, station_of(line), reading_tenths(token_of(line)) as i64))
    } else {
        None
    }
}

/// `m` after every line of `s` in turn, or `None` if one of them is no record.
pub open spec fn fold_lines(s: Seq<u8>, m: Map<Seq<u8>, Measurements>) -> Option<
    Map<Seq<u8>, Measurements>,
>
    decreases s.len(),
{
    if s.len() == 0 {
        Some(m)
    } else {
        match step_line(m, s.subrange(0, line_len(s))) {
            Some(m2) => if after_line(s).len() < s.len() {
                fold_lines(after_line(s), m2)
            } else {
                None
            },
            None => None,
        }
    }
}

/// The statistics of the record lines of `s`.
pub open spec fn chunk_stats(s: Seq<u8>) -> Option<Map<Seq<u8>, Measurements>> {
    fold_lines(s, Map::empty())
}

/// A line could not be read as a record; `offset` is where it begins.
#[derive(Clone, Copy, Debug, PartialEq, Eq, Structural)]
pub enum ParseError {
    BadLine { offset: usize },
}

pub(crate) proof fn lemma_line_len(s: Seq<u8>)
    ensures
        0 <= line_len(s) <= s.len(),
        forall|j: int| 0 <= j < line_len(s) ==> s[j] != 10u8,
        line_len(s) < s.len() ==> s[line_len(s)] == 10u8,
    decreases s.len(),
{
    if s.len() > 0 && s[0] != 10u8 {
        lemma_line_len(s.drop_first());
        assert forall|j: int| 0 <= j < line_len(s) implies s[j] != 10u8 by {
            if j > 0 {
                assert(s[j] == s.drop_first()[j - 1]);
            }
        }
    }
}

pub(crate) proof fn lemma_line_len_is(s: Seq<u8>, q: int)
    requires
        0 <= q <= s.len(),
        forall|j: int| 0 <= j < q ==> s[j] != 10u8,
        q < s.len() ==> s[q] == 10u8,
    ensures
        line_len(s) == q,
    decreases s.len(),
{
    if s.len() > 0 && s[0] != 10u8 {
        assert(q > 0);
        assert forall|j: int| 0 <= j < q - 1 implies s.drop_first()[j] != 10u8 by {
            assert(s.drop_first()[j] == s[j + 1]);
        }
        lemma_line_len_is(s.drop_first(), q - 1);
    }
}

/// Reads every line of a chunk into a new mapping from station to its
/// statistics; empty lines are skipped.
pub fn aggregate_chunk<'a>(chunk: &'a [u8]) -> (r: Result<Data<'a>, ParseError>)
    ensures
        r matches Ok(d) ==> chunk_stats(chunk@) == Some(d@),
        r matches Err(ParseError::BadLine { offset }) ==> {
            &&& chunk_stats(chunk@) is None
            &&& offset < chunk@.len()
            &&& line_start(chunk@, offset as int)
        },
{
    let n = chunk.len();
    let mut data = Data::new();
    let mut p: usize = 0;
    assert(chunk@.subrange(0, n as int) == chunk@);
    while p < n
        invariant
            0 <= p <= n,
            n == chunk@.len(),
            p == n || line_start(chunk@, p as int),
            chunk_stats(chunk@) == fold_lines(chunk@.subrange(p as int, n as int), data@),
        decreases n - p,
    {
        let mut q: usize = p;
        while q < n && chunk[q] != 10u8
            invariant
                p <= q <= n,
                n == chunk@.len(),
                forall|j: int| p <= j < q ==> chunk@[j] != 10u8,
            decreases n - q,
        {
            q = q + 1;
        }
        let ghost s = chunk@.subrange(p as int, n as int);
        proof {
            lemma_line_len_is(s, q - p);
            assert(s.subrange(0, q - p) =~= chunk@.subrange(p as int, q as int));
            if q < n {
                assert(after_line(s) =~= chunk@.subrange(q + 1, n as int));
            } else {
                assert(after_line(s) =~= chunk@.subrange(n as int, n as int));
            }
        }
        let line = vstd::slice::slice_subrange(chunk, p, q);
        if q > p {
            match try_parse_line(line) {
                None => {
                    return Err(ParseError::BadLine { offset: p });
                },
                Some((station, reading)) => {
                    data.record(station, reading);
                },
            }
        }
        if q == n {
            p = n;
        } else {
            p = q + 1;
        }
    }
    assert(chunk@.subrange(p as int, n as int) =~= Seq::<u8>::empty());
    Ok(data)
}

} // verus!
