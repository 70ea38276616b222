use vstd::prelude::*;

verus! {

/// The last position `e` in `(lo, hi]` just after a line terminator, or `lo`
/// when that range holds none.
pub open spec fn break_before(data: Seq<u8>, lo: int, hi: int) -> int
    decreases hi - lo,
{
    if hi <= lo {
        lo
    } else if data[hi - 1] == 10u8 {
        hi
    } else {
        break_before(data, lo, hi - 1)
    }
}

/// Where the chunk that starts at `start` ends: the end of the buffer if the
/// rest fits in `size` bytes, otherwise just after the last terminator within
/// `size` bytes of `start` (or `start` itself if there is none).
pub open spec fn chunk_end(data: Seq<u8>, start: int, size: int) -> int {
    if data.len() - start <= size {
        data.len() as int
    } else {
        break_before(data, start, start + size)
    }
}

/// The chunks from `start` to the end of the buffer, or `None` where a line
/// does not fit in a chunk.
pub open spec fn chunks_from(data: Seq<u8>, start: int, size: int) -> Option<Seq<Seq<u8>>>
    decreases data.len() - start,
{
    if start >= data.len() {
        Some(Seq::empty())
    } else {
        let e = chunk_end(data, start, size);
        if start < e <= data.len() {
            match chunks_from(data, e, size) {
                Some(rest) => Some(seq![data.subrange(start, e)] + rest),
                None => None,
            }
        } else {
            None
        }
    }
}

/// A position at which a line begins.
pub open spec fn line_start(data: Seq<u8>, pos: int) -> bool {
    pos == 0 || data[pos - 1] == 10u8
}

/// No line terminator stands in `data[lo..hi)`.
pub open spec fn no_terminator(data: Seq<u8>, lo: int, hi: int) -> bool {
    forall|j: int| lo <= j < hi ==> data[j] != 10u8
}

/// A chunk could not be formed: the line that starts at `offset` is longer
/// than the chunk size.
#[derive(Clone, Copy, Debug, PartialEq, Eq, Structural)]
pub enum ChunkError {
    LineTooLong { offset: usize },
}

proof fn lemma_break_before(data: Seq<u8>, lo: int, hi: int)
    requires
        0 <= lo <= hi <= data.len(),
    ensures
        lo <= break_before(data, lo, hi) <= hi,
        break_before(data, lo, hi) > lo ==> data[break_before(data, lo, hi) - 1] == 10u8,
        no_terminator(data, break_before(data, lo, hi), hi),
    decreases hi - lo,
{
    if hi > lo && data[hi - 1] != 10u8 {
        lemma_break_before(data, lo, hi - 1);
    }
}

/// The next chunk of `data` from `start`: at most `chunk_size` bytes, ending
/// at the end of the buffer or just after a line terminator. It is empty
/// where `start` is the end, or where the line at `start` is too long.
pub fn next_chunk(data: &[u8], start: usize, chunk_size: usize) -> (r: &[u8])
    requires
        start <= data@.len(),
    ensures
        r@ == data@.subrange(start as int, chunk_end(data@, start as int, chunk_size as int)),
{
    let len = data.len();
    if len - start <= chunk_size {
        return vstd::slice::slice_subrange(data, start, len);
    }
    let mut end: usize = start + chunk_size;
    while end > start && data[end - 1] != 10u8
        invariant
            start <= end <= start + chunk_size < len,
            len == data@.len(),
            break_before(data@, start as int, end as int) == break_before(
                data@,
                start as int,
                start + chunk_size,
            ),
        decreases end,
    {
        end -= 1;
    }
    vstd::slice::slice_subrange(data, start, end)
}

/// The chunks of a buffer, taken one after another.
pub struct Chunks<'a> {
    pub source: &'a [u8],
    pub start: usize,
    pub chunk_size: usize,
}

impl<'a> Chunks<'a> {
    pub open spec fn wf(&self) -> bool {
        self.start <= self.source@.len() && (self.start == self.source@.len() || line_start(
            self.source@,
            self.start as int,
        ))
    }

    pub fn from_source(source: &'a [u8], chunk_size: usize) -> (r: Chunks<'a>)
        ensures
            r.source@ == source@,
            r.start == 0,
            r.chunk_size == chunk_size,
            r.wf(),
    {
        Chunks { source, start: 0, chunk_size }
    }

    /// The next chunk, `None` at the end of the buffer, or an error where the
    /// line at the current position does not fit in a chunk.
    pub fn next(&mut self) -> (r: Result<Option<&'a [u8]>, ChunkError>)
        requires
            old(self).wf(),
        ensures
            final(self).wf(),
            final(self).source == old(self).source,
            final(self).chunk_size == old(self).chunk_size,
            ({
                let data = old(self).source@;
                let s = old(self).start as int;
                let e = chunk_end(data, s, old(self).chunk_size as int);
                if s == data.len() {
                    r == Ok::<Option<&'a [u8]>, ChunkError>(None) && final(self).start == s
                } else if e == s {
                    r == Err::<Option<&'a [u8]>, ChunkError>(
                        ChunkError::LineTooLong { offset: s as usize },
                    ) && final(self).start == s && data.len() - s > old(self).chunk_size
                        && no_terminator(data, s, s + old(self).chunk_size)
                } else {
                    s < e <= data.len() && final(self).start == e && (r matches Ok(Some(c))
                        && c@ == data.subrange(s, e))
                }
            }),
    {
        let n = self.source.len();
        let chunk = next_chunk(self.source, self.start, self.chunk_size);
        proof {
            let data = self.source@;
            let s = self.start as int;
            if data.len() - s > self.chunk_size {
                lemma_break_before(data, s, s + self.chunk_size);
            }
            let e = chunk_end(data, s, self.chunk_size as int);
            assert(s <= e <= data.len());
            assert(chunk@.len() == e - s);
        }
        if chunk.len() == 0 {
            if self.start == n {
                Ok(None)
            } else {
                Err(ChunkError::LineTooLong { offset: self.start })
            }
        } else {
            self.start = self.start + chunk.len();
            Ok(Some(chunk))
        }
    }
}

pub open spec fn views<'a>(v: Seq<&'a [u8]>) -> Seq<Seq<u8>> {
    v.map_values(|c: &'a [u8]| c@)
}

/// Splits a whole buffer into its chunks, or reports the first line that does
/// not fit in `chunk_size` bytes.
pub fn split_chunks<'a>(data: &'a [u8], chunk_size: usize) -> (r: Result<
    Vec<&'a [u8]>,
    ChunkError,
>)
    ensures
        r matches Ok(v) ==> chunks_from(data@, 0, chunk_size as int) == Some(views(v@)),
        r matches Err(ChunkError::LineTooLong { offset }) ==> {
            &&& chunks_from(data@, 0, chunk_size as int) is None
            &&& offset < data@.len()
            &&& line_start(data@, offset as int)
            &&& data@.len() - offset > chunk_size
            &&& no_terminator(data@, offset as int, offset + chunk_size)
        },
{
    let mut chunks = Chunks::from_source(data, chunk_size);
    let mut out: Vec<&'a [u8]> = Vec::new();
    assert(views(out@) + chunks_from(data@, 0, chunk_size as int)->0 =~= chunks_from(
        data@,
        0,
        chunk_size as int,
    )->0);
    loop
        invariant
            chunks.wf(),
            chunks.source@ == data@,
            chunks.chunk_size == chunk_size,
            match chunks_from(data@, chunks.start as int, chunk_size as int) {
                Some(rest) => chunks_from(data@, 0, chunk_size as int) == Some(views(out@) + rest),
                None => chunks_from(data@, 0, chunk_size as int) is None,
            },
        decreases data@.len() - chunks.start,
    {
        let ghost before = views(out@);
        match chunks.next() {
            Ok(None) => {
                assert(before + Seq::<Seq<u8>>::empty() =~= before);
                return Ok(out);
            },
            Err(e) => {
                return Err(e);
            },
            Ok(Some(c)) => {
                out.push(c);
                proof {
                    assert(views(out@) =~= before.push(c@));
                    let rest = chunks_from(data@, chunks.start as int, chunk_size as int);
                    if rest is Some {
                        assert(before + (seq![c@] + rest->0) =~= views(out@) + rest->0);
                    }
                }
            },
        }
    }
}

/// Chunking loses and repeats nothing: the chunks, laid end to end, are the
/// buffer; each holds between one and `size` bytes; and each but the last ends
/// just after a line terminator.
pub proof fn lemma_chunks_cover(data: Seq<u8>, start: int, size: int)
    requires
        0 <= start <= data.len(),
        chunks_from(data, start, size) is Some,
    ensures
        ({
            let cs = chunks_from(data, start, size)->0;
            &&& cs.flatten() == data.subrange(start, data.len() as int)
            &&& forall|i: int| 0 <= i < cs.len() ==> 0 < #[trigger] cs[i].len() <= size
            &&& forall|i: int| 0 <= i < cs.len() - 1 ==> #[trigger] cs[i].last() == 10u8
        }),
    decreases data.len() - start,
{
    let cs = chunks_from(data, start, size)->0;
    if start >= data.len() {
        assert(data.subrange(start, data.len() as int) =~= Seq::<u8>::empty());
    } else {
        let e = chunk_end(data, start, size);
        if data.len() - start > size {
            lemma_break_before(data, start, start + size);
        }
        lemma_chunks_cover(data, e, size);
        let rest = chunks_from(data, e, size)->0;
        let c = data.subrange(start, e);
        assert(cs == seq![c] + rest);
        assert(cs.drop_first() =~= rest);
        assert(cs.flatten() == c + rest.flatten());
        assert(c + data.subrange(e, data.len() as int) =~= data.subrange(start, data.len() as int));
        assert forall|i: int| 0 <= i < cs.len() - 1 implies #[trigger] cs[i].last() == 10u8 by {
            if i == 0 {
                assert(e < data.len());
            } else {
                assert(cs[i] == rest[i - 1]);
            }
        }
        assert forall|i: int| 0 <= i < cs.len() implies 0 < #[trigger] cs[i].len() <= size by {
            if i > 0 {
                assert(cs[i] == rest[i - 1]);
            }
        }
    }
}

} // verus!
