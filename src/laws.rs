use vstd::prelude::*;

use crate::aggregate::{after_line, chunk_stats, fold_lines, line_len, step_line};
use crate::chunk::{chunks_from, lemma_chunks_cover};
use crate::data::{merge_maps, record_map};
use crate::measurements::{
    lemma_merged_associative, lemma_merged_commutative, lemma_record_is_merge, Measurements,
};

verus! {

pub type Stats = Map<Seq<u8>, Measurements>;

/// The statistics of a sequence of chunks, each read on its own and merged in
/// turn, or `None` if one of them holds a line that is no record.
pub open spec fn merge_chunks(cs: Seq<Seq<u8>>) -> Option<Stats>
    decreases cs.len(),
{
    if cs.len() == 0 {
        Some(Map::empty())
    } else {
        match (merge_chunks(cs.drop_last()), chunk_stats(cs.last())) {
            (Some(a), Some(b)) => Some(merge_maps(a, b)),
            _ => None,
        }
    }
}

/// Merging two mappings does not depend on their order.
pub proof fn lemma_merge_maps_commutative(a: Stats, b: Stats)
    ensures
        merge_maps(a, b) == merge_maps(b, a),
{
    assert forall|k: Seq<u8>| a.contains_key(k) && b.contains_key(k) implies #[trigger] a[k].merged(
        b[k],
    ) == b[k].merged(a[k]) by {
        lemma_merged_commutative(a[k], b[k]);
    }
    assert(merge_maps(a, b) =~= merge_maps(b, a));
}

/// Merging three mappings does not depend on how they are grouped.
pub proof fn lemma_merge_maps_associative(a: Stats, b: Stats, c: Stats)
    ensures
        merge_maps(merge_maps(a, b), c) == merge_maps(a, merge_maps(b, c)),
{
    assert forall|k: Seq<u8>| a.contains_key(k) && b.contains_key(k) && c.contains_key(k) implies #[trigger] a[k].merged(
        b[k],
    ).merged(c[k]) == a[k].merged(b[k].merged(c[k])) by {
        lemma_merged_associative(a[k], b[k], c[k]);
    }
    assert(merge_maps(merge_maps(a, b), c) =~= merge_maps(a, merge_maps(b, c)));
}

proof fn lemma_merge_empty(m: Stats)
    ensures
        merge_maps(m, Map::empty()) == m,
{
    assert(merge_maps(m, Map::empty()) =~= m);
}

proof fn lemma_record_after_merge(m: Stats, n: Stats, k: Seq<u8>, reading: i64)
    ensures
        record_map(merge_maps(m, n), k, reading) == merge_maps(m, record_map(n, k, reading)),
{
    if m.contains_key(k) {
        lemma_record_is_merge(m[k], reading);
        if n.contains_key(k) {
            lemma_record_is_merge(n[k], reading);
            lemma_merged_associative(m[k], n[k], Measurements::seeded(reading));
        }
    }
    assert(record_map(merge_maps(m, n), k, reading) =~= merge_maps(m, record_map(n, k, reading)));
}

/// Reading lines into `merge_maps(m, n)` is reading them into `n` and merging
/// the result into `m`.
proof fn lemma_fold_from_merged(s: Seq<u8>, m: Stats, n: Stats)
    ensures
        fold_lines(s, merge_maps(m, n)) == (match fold_lines(s, n) {
            Some(x) => Some(merge_maps(m, x)),
            None => None,
        }),
    decreases s.len(),
{
    if s.len() > 0 {
        let line = s.subrange(0, line_len(s));
        if line.len() > 0 && crate::record::valid_line(line) {
            let k = crate::record::station_of(line);
            let r = crate::record::reading_tenths(crate::record::token_of(line)) as i64;
            lemma_record_after_merge(m, n, k, r);
        }
        if step_line(n, line) is Some && after_line(s).len() < s.len() {
            lemma_fold_from_merged(after_line(s), m, step_line(n, line)->0);
        }
    }
}

/// A chunk that ends in a line terminator can be read on its own before what
/// follows it.
proof fn lemma_fold_concat(c: Seq<u8>, t: Seq<u8>, m: Stats)
    requires
        c.len() > 0,
        c.last() == 10u8,
    ensures
        fold_lines(c + t, m) == (match fold_lines(c, m) {
            Some(x) => fold_lines(t, x),
            None => None,
        }),
    decreases c.len(),
{
    let s = c + t;
    crate::aggregate::lemma_line_len(c);
    let q = line_len(c);
    assert(q < c.len());
    assert forall|j: int| 0 <= j < q implies s[j] != 10u8 by {
        assert(s[j] == c[j]);
    }
    crate::aggregate::lemma_line_len_is(s, q);
    assert(s.subrange(0, q) =~= c.subrange(0, q));
    let rc = c.subrange(q + 1, c.len() as int);
    assert(after_line(c) == rc);
    assert(after_line(s) =~= rc + t);
    if step_line(m, c.subrange(0, q)) is Some {
        let m2 = step_line(m, c.subrange(0, q))->0;
        if rc.len() == 0 {
            assert(rc + t =~= t);
        } else {
            assert(rc.last() == c.last());
            lemma_fold_concat(rc, t, m2);
        }
    }
}

/// Reading a buffer's chunks one by one and merging the results gives what
/// reading the whole buffer gives.
pub proof fn lemma_merge_chunks_whole(cs: Seq<Seq<u8>>)
    requires
        forall|i: int| 0 <= i < cs.len() ==> #[trigger] cs[i].len() > 0,
        forall|i: int| 0 <= i < cs.len() - 1 ==> #[trigger] cs[i].last() == 10u8,
    ensures
        merge_chunks(cs) == chunk_stats(cs.flatten()),
    decreases cs.len(),
{
    if cs.len() > 0 {
        let init = cs.drop_last();
        let l = cs.last();
        assert forall|i: int| 0 <= i < init.len() implies #[trigger] init[i].len() > 0 by {
            assert(init[i] == cs[i]);
        }
        assert forall|i: int| 0 <= i < init.len() - 1 implies #[trigger] init[i].last() == 10u8 by {
            assert(init[i] == cs[i]);
        }
        lemma_merge_chunks_whole(init);
        assert(init.push(l) =~= cs);
        init.lemma_flatten_push(l);
        let a = init.flatten();
        if init.len() == 0 {
            assert(a =~= Seq::<u8>::empty());
            assert(a + l =~= l);
            lemma_merge_empty(Map::empty());
            lemma_fold_from_merged(l, Map::empty(), Map::empty());
            assert(merge_maps(Map::<Seq<u8>, Measurements>::empty(), Map::empty()) =~= Map::empty());
        } else {
            lemma_flatten_ends(init);
            lemma_fold_concat(a, l, Map::empty());
            if chunk_stats(a) is Some {
                let x = chunk_stats(a)->0;
                lemma_merge_empty(x);
                lemma_fold_from_merged(l, x, Map::empty());
            }
        }
    }
}

proof fn lemma_flatten_ends(cs: Seq<Seq<u8>>)
    requires
        cs.len() > 0,
        forall|i: int| 0 <= i < cs.len() ==> #[trigger] cs[i].len() > 0,
        forall|i: int| 0 <= i < cs.len() ==> #[trigger] cs[i].last() == 10u8,
    ensures
        cs.flatten().len() > 0,
        cs.flatten().last() == 10u8,
    decreases cs.len(),
{
    let init = cs.drop_last();
    assert(init.push(cs.last()) =~= cs);
    init.lemma_flatten_push(cs.last());
    let a = init.flatten();
    let l = cs.last();
    assert(l.len() > 0);
    assert((a + l).last() == l.last());
}

/// How a buffer is cut into chunks does not change the result: any two chunk
/// sizes that both chunk the buffer give the same merged statistics.
pub proof fn lemma_rechunk(data: Seq<u8>, x: int, y: int)
    requires
        chunks_from(data, 0, x) is Some,
        chunks_from(data, 0, y) is Some,
    ensures
        merge_chunks(chunks_from(data, 0, x)->0) == merge_chunks(chunks_from(data, 0, y)->0),
        merge_chunks(chunks_from(data, 0, x)->0) == chunk_stats(data),
{
    lemma_chunks_cover(data, 0, x);
    lemma_chunks_cover(data, 0, y);
    lemma_merge_chunks_whole(chunks_from(data, 0, x)->0);
    lemma_merge_chunks_whole(chunks_from(data, 0, y)->0);
    assert(data.subrange(0, data.len() as int) =~= data);
}

} // verus!
