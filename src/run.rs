use vstd::prelude::*;

use crate::aggregate::{aggregate_chunk, chunk_stats, ParseError};
use crate::chunk::{chunks_from, lemma_chunks_cover, line_start, no_terminator, split_chunks, views, ChunkError};
use crate::data::Data;
use crate::laws::{lemma_merge_chunks_whole, merge_chunks};
use crate::measurements::Measurements;
use crate::order::sorted_by_station;
use crate::table::lists_map;

verus! {

/// Why a run over a buffer failed.
#[derive(Clone, Copy, Debug, PartialEq, Eq, Structural)]
pub enum RunError {
    /// The line that starts at `offset` of the buffer does not fit in a chunk.
    LineTooLong { offset: usize },
    /// The line at `offset` of chunk number `chunk` is no record.
    BadLine { chunk: usize, offset: usize },
}

proof fn lemma_merge_chunks_prefix_none(cs: Seq<Seq<u8>>, i: int)
    requires
        0 <= i <= cs.len(),
        merge_chunks(cs.take(i)) is None,
    ensures
        merge_chunks(cs) is None,
    decreases cs.len(),
{
    if i == cs.len() {
        assert(cs.take(i) =~= cs);
    } else {
        assert(cs.drop_last().take(i) =~= cs.take(i));
        lemma_merge_chunks_prefix_none(cs.drop_last(), i);
    }
}

/// Computes the statistics of every station of a buffer, chunk by chunk, and
/// lists them in byte-wise order of station name.
pub fn aggregate_buffer<'a>(data: &'a [u8], chunk_size: usize) -> (r: Result<
    Vec<(&'a [u8], Measurements)>,
    RunError,
>)
    ensures
        r matches Ok(v) ==> {
            &&& chunks_from(data@, 0, chunk_size as int) is Some
            &&& chunk_stats(data@) is Some
            &&& lists_map(v@, chunk_stats(data@)->0)
            &&& sorted_by_station(v@)
        },
        r matches Err(RunError::LineTooLong { offset }) ==> {
            &&& chunks_from(data@, 0, chunk_size as int) is None
            &&& offset < data@.len()
            &&& line_start(data@, offset as int)
            &&& data@.len() - offset > chunk_size
            &&& no_terminator(data@, offset as int, offset + chunk_size)
        },
        r matches Err(RunError::BadLine { .. }) ==> chunk_stats(data@) is None,
{
    let chunks = match split_chunks(data, chunk_size) {
        Ok(c) => c,
        Err(ChunkError::LineTooLong { offset }) => {
            return Err(RunError::LineTooLong { offset });
        },
    };
    let ghost cs = views(chunks@);
    proof {
        lemma_chunks_cover(data@, 0, chunk_size as int);
        assert(data@.subrange(0, data@.len() as int) =~= data@);
        lemma_merge_chunks_whole(cs);
        assert(cs.take(0) =~= Seq::<Seq<u8>>::empty());
    }
    let mut total = Data::new();
    let mut i: usize = 0;
    while i < chunks.len()
        invariant
            0 <= i <= chunks@.len(),
            cs == views(chunks@),
            merge_chunks(cs) == chunk_stats(data@),
            merge_chunks(cs.take(i as int)) == Some(total@),
        decreases chunks@.len() - i,
    {
        proof {
            assert(cs.take(i + 1).drop_last() =~= cs.take(i as int));
            assert(cs.take(i + 1).last() == chunks@[i as int]@);
        }
        match aggregate_chunk(chunks[i]) {
            Ok(d) => {
                total.merge(d);
            },
            Err(ParseError::BadLine { offset }) => {
                proof {
                    lemma_merge_chunks_prefix_none(cs, i + 1);
                }
                return Err(RunError::BadLine { chunk: i, offset });
            },
        }
        i = i + 1;
    }
    assert(cs.take(i as int) =~= cs);
    Ok(total.into_sorted())
}

} // verus!
