use vstd::prelude::*;

use crate::data::Data;
use crate::measurements::Measurements;
use crate::table::lists_map;

verus! {

/// Byte-wise lexicographic order: `a` comes strictly before `b`.
pub open spec fn lex_lt(a: Seq<u8>, b: Seq<u8>) -> bool
    decreases a.len(),
{
    if a.len() == 0 {
        b.len() > 0
    } else if b.len() == 0 {
        false
    } else if a[0] != b[0] {
        a[0] < b[0]
    } else {
        lex_lt(a.drop_first(), b.drop_first())
    }
}

/// Entries in strictly increasing order of station name.
pub open spec fn sorted_by_station<'a>(entries: Seq<(&'a [u8], Measurements)>) -> bool {
    forall|i: int, j: int| 0 <= i < j < entries.len() ==> lex_lt(entries[i].0@, entries[j].0@)
}

pub proof fn lemma_lex_irreflexive(a: Seq<u8>)
    ensures
        !lex_lt(a, a),
    decreases a.len(),
{
    if a.len() > 0 {
        lemma_lex_irreflexive(a.drop_first());
    }
}

pub proof fn lemma_lex_total(a: Seq<u8>, b: Seq<u8>)
    requires
        a != b,
    ensures
        lex_lt(a, b) || lex_lt(b, a),
    decreases a.len(),
{
    if a.len() > 0 && b.len() > 0 && a[0] == b[0] {
        if a.drop_first() == b.drop_first() {
            assert(a =~= seq![a[0]] + a.drop_first());
            assert(b =~= seq![b[0]] + b.drop_first());
        }
        lemma_lex_total(a.drop_first(), b.drop_first());
    } else if a.len() == 0 && b.len() == 0 {
        assert(a =~= b);
    }
}

pub proof fn lemma_lex_transitive(a: Seq<u8>, b: Seq<u8>, c: Seq<u8>)
    requires
        lex_lt(a, b),
        lex_lt(b, c),
    ensures
        lex_lt(a, c),
    decreases a.len(),
{
    if a.len() > 0 && b.len() > 0 && c.len() > 0 && a[0] == b[0] && b[0] == c[0] {
        lemma_lex_transitive(a.drop_first(), b.drop_first(), c.drop_first());
    }
}

/// Compares two station names byte by byte.
pub fn bytes_lt(a: &[u8], b: &[u8]) -> (r: bool)
    ensures
        r == lex_lt(a@, b@),
{
    let mut i: usize = 0;
    assert(a@.skip(0) =~= a@);
    assert(b@.skip(0) =~= b@);
    while i < a.len() && i < b.len() && a[i] == b[i]
        invariant
            i <= a@.len(),
            i <= b@.len(),
            lex_lt(a@, b@) == lex_lt(a@.skip(i as int), b@.skip(i as int)),
        decreases a@.len() - i,
    {
        assert(a@.skip(i as int).drop_first() =~= a@.skip(i + 1));
        assert(b@.skip(i as int).drop_first() =~= b@.skip(i + 1));
        i = i + 1;
    }
    if i == a.len() {
        i < b.len()
    } else if i == b.len() {
        false
    } else {
        a[i] < b[i]
    }
}

proof fn lemma_insert_sorted<'a>(s: Seq<(&'a [u8], Measurements)>, pos: int, e: (&'a [u8], Measurements))
    requires
        0 <= pos <= s.len(),
        sorted_by_station(s),
        forall|j: int| 0 <= j < pos ==> lex_lt(#[trigger] s[j].0@, e.0@),
        forall|j: int| pos <= j < s.len() ==> lex_lt(e.0@, #[trigger] s[j].0@),
    ensures
        sorted_by_station(s.insert(pos, e)),
{
    let t = s.insert(pos, e);
    assert forall|a: int, b: int| 0 <= a < b < t.len() implies lex_lt(t[a].0@, t[b].0@) by {
        if b < pos {
            assert(t[a] == s[a] && t[b] == s[b]);
        } else if b == pos {
            assert(t[a] == s[a]);
        } else if a < pos {
            assert(t[a] == s[a] && t[b] == s[b - 1]);
            lemma_lex_transitive(t[a].0@, e.0@, t[b].0@);
        } else if a == pos {
            assert(t[b] == s[b - 1]);
        } else {
            assert(t[a] == s[a - 1] && t[b] == s[b - 1]);
        }
    }
}

/// `out` holds exactly the first `i` entries, as the index maps `src` and
/// `dst` witness.
pub open spec fn holds_prefix<'a>(
    out: Seq<(&'a [u8], Measurements)>,
    entries: Seq<(&'a [u8], Measurements)>,
    i: int,
    src: Seq<int>,
    dst: Seq<int>,
) -> bool {
    &&& src.len() == out.len()
    &&& dst.len() == i
    &&& forall|j: int| 0 <= j < out.len() ==> 0 <= #[trigger] src[j] < i && out[j] == entries[src[j]]
    &&& forall|k: int| 0 <= k < i ==> 0 <= #[trigger] dst[k] < out.len() && out[dst[k]] == entries[k]
}

proof fn lemma_insert_members<'a>(
    s: Seq<(&'a [u8], Measurements)>,
    entries: Seq<(&'a [u8], Measurements)>,
    i: int,
    pos: int,
    src: Seq<int>,
    dst: Seq<int>,
)
    requires
        0 <= pos <= s.len(),
        0 <= i < entries.len(),
        holds_prefix(s, entries, i, src, dst),
    ensures
        holds_prefix(
            s.insert(pos, entries[i]),
            entries,
            i + 1,
            src.insert(pos, i),
            shift_from(dst, pos).push(pos),
        ),
{
    let t = s.insert(pos, entries[i]);
    let src2 = src.insert(pos, i);
    let dst2 = shift_from(dst, pos).push(pos);
    assert forall|j: int| 0 <= j < t.len() implies 0 <= #[trigger] src2[j] < i + 1 && t[j] == entries[src2[j]] by {
        if j > pos {
            assert(src2[j] == src[j - 1]);
        }
    }
    assert forall|k: int| 0 <= k < i + 1 implies 0 <= #[trigger] dst2[k] < t.len() && t[dst2[k]] == entries[k] by {
        if k < i {
            assert(dst2[k] == shift_from(dst, pos)[k]);
        }
    }
}

/// Each index at or after `pos` moved up by one.
pub open spec fn shift_from(d: Seq<int>, pos: int) -> Seq<int> {
    d.map_values(|x: int| if x >= pos { x + 1 } else { x })
}

/// Where `key` goes in `out`: before the first entry whose name follows it.
fn insert_position<'a>(out: &Vec<(&'a [u8], Measurements)>, key: &[u8]) -> (pos: usize)
    ensures
        0 <= pos <= out@.len(),
        forall|j: int| 0 <= j < pos ==> !lex_lt(key@, #[trigger] out@[j].0@),
        pos < out@.len() ==> lex_lt(key@, out@[pos as int].0@),
{
    let mut pos: usize = 0;
    while pos < out.len() && !bytes_lt(key, out[pos].0)
        invariant
            0 <= pos <= out@.len(),
            forall|j: int| 0 <= j < pos ==> !lex_lt(key@, #[trigger] out@[j].0@),
        decreases out@.len() - pos,
    {
        pos = pos + 1;
    }
    pos
}

proof fn lemma_position_splits<'a>(s: Seq<(&'a [u8], Measurements)>, pos: int, e: (&'a [u8], Measurements))
    requires
        0 <= pos <= s.len(),
        sorted_by_station(s),
        forall|j: int| 0 <= j < s.len() ==> #[trigger] s[j].0@ != e.0@,
        forall|j: int| 0 <= j < pos ==> !lex_lt(e.0@, #[trigger] s[j].0@),
        pos < s.len() ==> lex_lt(e.0@, s[pos].0@),
    ensures
        forall|j: int| 0 <= j < pos ==> lex_lt(#[trigger] s[j].0@, e.0@),
        forall|j: int| pos <= j < s.len() ==> lex_lt(e.0@, #[trigger] s[j].0@),
{
    assert forall|j: int| 0 <= j < pos implies lex_lt(#[trigger] s[j].0@, e.0@) by {
        lemma_lex_total(s[j].0@, e.0@);
    }
    assert forall|j: int| pos <= j < s.len() implies lex_lt(e.0@, #[trigger] s[j].0@) by {
        if j > pos {
            lemma_lex_transitive(e.0@, s[pos].0@, s[j].0@);
        }
    }
}

impl<'a> Data<'a> {
    /// The statistics of every station, in byte-wise order of station name.
    pub fn into_sorted(self) -> (r: Vec<(&'a [u8], Measurements)>)
        ensures
            lists_map(r@, self@),
            sorted_by_station(r@),
    {
        let ghost m = self@;
        let entries = self.m.into_entries();
        let mut out: Vec<(&'a [u8], Measurements)> = Vec::new();
        let mut i: usize = 0;
        let ghost mut src: Seq<int> = Seq::empty();
        let ghost mut dst: Seq<int> = Seq::empty();
        while i < entries.len()
            invariant
                0 <= i <= entries@.len(),
                lists_map(entries@, m),
                out@.len() == i,
                sorted_by_station(out@),
                holds_prefix(out@, entries@, i as int, src, dst),
            decreases entries@.len() - i,
        {
            let e = entries[i];
            let pos = insert_position(&out, e.0);
            let ghost old_out = out@;
            proof {
                assert forall|j: int| 0 <= j < old_out.len() implies #[trigger] old_out[j].0@ != e.0@ by {
                    assert(old_out[j] == entries@[src[j]]);
                }
                lemma_position_splits(old_out, pos as int, e);
                lemma_insert_sorted(old_out, pos as int, e);
                lemma_insert_members(old_out, entries@, i as int, pos as int, src, dst);
            }
            out.insert(pos, e);
            proof {
                src = src.insert(pos as int, i as int);
                dst = shift_from(dst, pos as int).push(pos as int);
            }
            i = i + 1;
        }
        proof {
            assert forall|a: int, b: int| 0 <= a < b < out@.len() implies out@[a].0@ != out@[b].0@ by {
                lemma_lex_irreflexive(out@[a].0@);
            }
            assert forall|a: int| 0 <= a < out@.len() implies #[trigger] m.contains_key(out@[a].0@) && m[out@[a].0@] == out@[a].1 by {
                assert(out@[a] == entries@[src[a]]);
            }
            assert forall|key: Seq<u8>| #[trigger] m.contains_key(key) implies exists|a: int| 0 <= a < out@.len() && #[trigger] out@[a].0@ == key by {
                let k = choose|k: int| 0 <= k < entries@.len() && #[trigger] entries@[k].0@ == key;
                assert(out@[dst[k]] == entries@[k]);
            }
        }
        out
    }
}

} // verus!
