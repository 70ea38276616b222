use vstd::prelude::*;

verus! {

/// Running statistics of one station, every value in tenths of a degree.
///
/// `sum` and `n` wrap around on overflow: for the bounded range of
/// temperatures this is a known precision limit rather than an error.
#[derive(Clone, Copy, Debug, PartialEq, Eq, Structural)]
pub struct Measurements {
    pub min: i64,
    pub max: i64,
    pub sum: i64,
    pub n: usize,
}

/// Adds two signed accumulators modulo 2^64.
pub open spec fn add_i64(a: i64, b: i64) -> i64 {
    vstd::wrapping::i64_specs::wrapping_add(a, b)
}

/// Adds two counters modulo 2^64.
pub open spec fn add_usize(a: usize, b: usize) -> usize {
    if a + b > usize::MAX {
        (a + b - (usize::MAX + 1)) as usize
    } else {
        (a + b) as usize
    }
}

pub open spec fn min_i64(a: i64, b: i64) -> i64 {
    if a <= b { a } else { b }
}

pub open spec fn max_i64(a: i64, b: i64) -> i64 {
    if a >= b { a } else { b }
}

impl Measurements {
    /// The statistics of a single reading.
    pub open spec fn seeded(reading: i64) -> Measurements {
        Measurements { min: reading, max: reading, sum: reading, n: 1 }
    }

    /// The statistics after one more reading.
    pub open spec fn recorded(self, reading: i64) -> Measurements {
        Measurements {
            min: min_i64(self.min, reading),
            max: max_i64(self.max, reading),
            sum: add_i64(self.sum, reading),
            n: add_usize(self.n, 1),
        }
    }

    /// The statistics of two disjoint groups of readings taken together.
    pub open spec fn merged(self, other: Measurements) -> Measurements {
        Measurements {
            min: min_i64(self.min, other.min),
            max: max_i64(self.max, other.max),
            sum: add_i64(self.sum, other.sum),
            n: add_usize(self.n, other.n),
        }
    }

    pub fn new(initial_reading: i64) -> (r: Measurements)
        ensures
            r == Measurements::seeded(initial_reading),
    {
        Measurements { min: initial_reading, max: initial_reading, sum: initial_reading, n: 1 }
    }

    pub fn record(&mut self, reading: i64)
        ensures
            *final(self) == old(self).recorded(reading),
    {
        self.min = if reading < self.min { reading } else { self.min };
        self.max = if reading > self.max { reading } else { self.max };
        self.sum = self.sum.wrapping_add(reading);
        self.n = self.n.wrapping_add(1);
    }

    pub fn merge(&mut self, other: Measurements)
        ensures
            *final(self) == old(self).merged(other),
    {
        self.min = if other.min < self.min { other.min } else { self.min };
        self.max = if other.max > self.max { other.max } else { self.max };
        self.sum = self.sum.wrapping_add(other.sum);
        self.n = self.n.wrapping_add(other.n);
    }
}

/// The least reading is never above the greatest: seeding, recording and
/// merging all keep `min <= max`.
pub proof fn lemma_min_le_max(m: Measurements, other: Measurements, reading: i64)
    requires
        m.min <= m.max,
        other.min <= other.max,
    ensures
        Measurements::seeded(reading).min <= Measurements::seeded(reading).max,
        m.recorded(reading).min <= m.recorded(reading).max,
        m.merged(other).min <= m.merged(other).max,
{
}

/// Recording a reading is merging with the statistics of that reading alone.
pub proof fn lemma_record_is_merge(m: Measurements, reading: i64)
    ensures
        m.recorded(reading) == m.merged(Measurements::seeded(reading)),
{
}

/// Merging two aggregates does not depend on their order.
pub proof fn lemma_merged_commutative(a: Measurements, b: Measurements)
    ensures
        a.merged(b) == b.merged(a),
{
}

/// Merging three aggregates does not depend on how they are grouped.
pub proof fn lemma_merged_associative(a: Measurements, b: Measurements, c: Measurements)
    ensures
        a.merged(b).merged(c) == a.merged(b.merged(c)),
{
}

} // verus!
