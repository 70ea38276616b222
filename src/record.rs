use vstd::prelude::*;

verus! {

pub open spec fn is_digit(b: u8) -> bool {
    48u8 <= b <= 57u8
}

pub open spec fn digit_value(b: u8) -> int {
    b - 48
}

/// `D.D` or `DD.D`, without a sign.
pub open spec fn valid_magnitude(t: Seq<u8>) -> bool {
    (t.len() == 3 && is_digit(t[0]) && t[1] == 46u8 && is_digit(t[2])) || (t.len() == 4
        && is_digit(t[0]) && is_digit(t[1]) && t[2] == 46u8 && is_digit(t[3]))
}

/// Ten times the value of a token accepted by `valid_magnitude`.
pub open spec fn magnitude_tenths(t: Seq<u8>) -> int {
    if t.len() == 3 {
        10 * digit_value(t[0]) + digit_value(t[2])
    } else {
        100 * digit_value(t[0]) + 10 * digit_value(t[1]) + digit_value(t[3])
    }
}

/// A temperature token: `-?D?D.D`.
pub open spec fn valid_reading(t: Seq<u8>) -> bool {
    valid_magnitude(t) || (t.len() > 0 && t[0] == 45u8 && valid_magnitude(t.drop_first()))
}

/// Ten times the value that a valid temperature token denotes.
pub open spec fn reading_tenths(t: Seq<u8>) -> int {
    if t.len() > 0 && t[0] == 45u8 {
        -magnitude_tenths(t.drop_first())
    } else {
        magnitude_tenths(t)
    }
}

/// The index of the first `;` of `s` at or after `from`, or `s.len()` if none.
pub open spec fn separator_from(s: Seq<u8>, from: int) -> int
    decreases s.len() - from,
{
    if from >= s.len() {
        s.len() as int
    } else if s[from] == 59u8 {
        from
    } else {
        separator_from(s, from + 1)
    }
}

pub open spec fn separator_index(s: Seq<u8>) -> int {
    separator_from(s, 0)
}

pub open spec fn station_of(line: Seq<u8>) -> Seq<u8> {
    line.subrange(0, separator_index(line))
}

pub open spec fn token_of(line: Seq<u8>) -> Seq<u8> {
    line.subrange(separator_index(line) + 1, line.len() as int)
}

/// A record line: a station, a `;`, and a temperature token.
pub open spec fn valid_line(line: Seq<u8>) -> bool {
    separator_index(line) < line.len() && valid_reading(token_of(line))
}

proof fn lemma_separator_bounds(s: Seq<u8>, from: int)
    requires
        0 <= from <= s.len(),
    ensures
        from <= separator_from(s, from) <= s.len(),
        separator_from(s, from) < s.len() ==> s[separator_from(s, from)] == 59u8,
        forall|j: int| from <= j < separator_from(s, from) ==> s[j] != 59u8,
    decreases s.len() - from,
{
    if from < s.len() && s[from] != 59u8 {
        lemma_separator_bounds(s, from + 1);
    }
}

fn digit(b: u8) -> (r: i64)
    requires
        is_digit(b),
    ensures
        r == digit_value(b),
{
    (b - 48u8) as i64
}

/// Reads a temperature token as a whole number of tenths of a degree.
pub fn parse_reading(reading: &[u8]) -> (r: i64)
    requires
        valid_reading(reading@),
    ensures
        r == reading_tenths(reading@),
{
    let is_neg = reading[0] == 45u8;
    let len = reading.len();
    let value: i64 = if !is_neg && len == 3 {
        10 * digit(reading[0]) + digit(reading[2])
    } else if !is_neg {
        100 * digit(reading[0]) + 10 * digit(reading[1]) + digit(reading[3])
    } else if len == 4 {
        10 * digit(reading[1]) + digit(reading[3])
    } else {
        100 * digit(reading[1]) + 10 * digit(reading[2]) + digit(reading[4])
    };
    if is_neg {
        -value
    } else {
        value
    }
}

/// The index of the first `;` of `line`, or its length if there is none.
fn find_separator(line: &[u8]) -> (r: usize)
    ensures
        r == separator_index(line@),
{
    let mut i: usize = 0;
    while i < line.len() && line[i] != 59u8
        invariant
            0 <= i <= line.len(),
            separator_from(line@, i as int) == separator_index(line@),
        decreases line.len() - i,
    {
        i = i + 1;
    }
    i
}

/// Splits a record line into its station and its reading in tenths.
pub fn parse_line(line: &[u8]) -> (r: (&[u8], i64))
    requires
        valid_line(line@),
    ensures
        r.0@ == station_of(line@),
        r.1 == reading_tenths(token_of(line@)),
{
    let sep = find_separator(line);
    proof {
        lemma_separator_bounds(line@, 0);
    }
    let n = line.len();
    assert(sep < n);
    let station = vstd::slice::slice_subrange(line, 0, sep);
    let token = vstd::slice::slice_subrange(line, sep + 1, n);
    (station, parse_reading(token))
}

/// Splits a line as `parse_line` does, or gives `None` where the line is no
/// record.
pub fn try_parse_line(line: &[u8]) -> (r: Option<(&[u8], i64)>)
    ensures
        r is Some <==> valid_line(line@),
        r matches Some(p) ==> p.0@ == station_of(line@) && p.1 == reading_tenths(token_of(line@)),
{
    let sep = find_separator(line);
    proof {
        lemma_separator_bounds(line@, 0);
    }
    if sep >= line.len() {
        return None;
    }
    let token = vstd::slice::slice_subrange(line, sep + 1, line.len());
    if !is_valid_reading(token) {
        return None;
    }
    let station = vstd::slice::slice_subrange(line, 0, sep);
    Some((station, parse_reading(token)))
}

fn is_digit_byte(b: u8) -> (r: bool)
    ensures
        r == is_digit(b),
{
    48u8 <= b && b <= 57u8
}

fn is_valid_magnitude(t: &[u8], from: usize) -> (r: bool)
    requires
        from <= t@.len(),
    ensures
        r == valid_magnitude(t@.subrange(from as int, t@.len() as int)),
{
    let n = t.len() - from;
    if n == 3 {
        is_digit_byte(t[from]) && t[from + 1] == 46u8 && is_digit_byte(t[from + 2])
    } else if n == 4 {
        is_digit_byte(t[from]) && is_digit_byte(t[from + 1]) && t[from + 2] == 46u8
            && is_digit_byte(t[from + 3])
    } else {
        false
    }
}

/// Tells whether a token has the shape `-?D?D.D`.
pub fn is_valid_reading(t: &[u8]) -> (r: bool)
    ensures
        r == valid_reading(t@),
{
    assert(t@.subrange(0, t@.len() as int) == t@);
    if is_valid_magnitude(t, 0) {
        true
    } else if t.len() > 0 && t[0] == 45u8 {
        assert(t@.subrange(1, t@.len() as int) == t@.drop_first());
        is_valid_magnitude(t, 1)
    } else {
        false
    }
}

} // verus!
