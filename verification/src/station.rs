//! The per-key running aggregate and its mathematical model.

use vstd::prelude::*;

verus! {

/// What a station stands for: how many values were folded into it, their sum,
/// and the least and the greatest of them, all as unbounded integers.
pub ghost struct Summary {
    pub count: nat,
    pub sum: int,
    pub min: int,
    pub max: int,
}

/// The summary of one observation.
pub open spec fn single(value: int) -> Summary {
    Summary { count: 1, sum: value, min: value, max: value }
}

/// The summary of the observations of `a` and of `b` together.
pub open spec fn join(a: Summary, b: Summary) -> Summary {
    Summary {
        count: a.count + b.count,
        sum: a.sum + b.sum,
        min: if a.min <= b.min { a.min } else { b.min },
        max: if a.max >= b.max { a.max } else { b.max },
    }
}

impl Summary {
    /// At least one observation, and the mean lies between the extremes:
    /// `min <= sum / count <= max`, stated without division.
    pub open spec fn wf(self) -> bool {
        &&& self.count >= 1
        &&& self.count * self.min <= self.sum
        &&& self.sum <= self.count * self.max
    }

    /// Every observation behind the summary lies within `limit` of zero, and
    /// there are at most `rows` of them.
    pub open spec fn bounded(self, rows: int, limit: int) -> bool {
        &&& self.count <= rows
        &&& -limit <= self.min
        &&& self.max <= limit
        &&& -limit * self.count <= self.sum
        &&& self.sum <= limit * self.count
    }
}

/// Joining is commutative.
pub proof fn lemma_join_commutative(a: Summary, b: Summary)
    ensures
        join(a, b) == join(b, a),
{
}

/// Joining is associative.
pub proof fn lemma_join_associative(a: Summary, b: Summary, c: Summary)
    ensures
        join(join(a, b), c) == join(a, join(b, c)),
{
}

/// Joining keeps the mean between the extremes.
pub proof fn lemma_join_wf(a: Summary, b: Summary)
    requires
        a.wf(),
        b.wf(),
    ensures
        join(a, b).wf(),
{
    let j = join(a, b);
    assert(a.count * j.min <= a.count * a.min) by (nonlinear_arith)
        requires
            j.min <= a.min,
            a.count >= 0,
    ;
    assert(b.count * j.min <= b.count * b.min) by (nonlinear_arith)
        requires
            j.min <= b.min,
            b.count >= 0,
    ;
    assert(a.count * a.max <= a.count * j.max) by (nonlinear_arith)
        requires
            a.max <= j.max,
            a.count >= 0,
    ;
    assert(b.count * b.max <= b.count * j.max) by (nonlinear_arith)
        requires
            b.max <= j.max,
            b.count >= 0,
    ;
    assert((a.count + b.count) * j.min == a.count * j.min + b.count * j.min)
        by (nonlinear_arith);
    assert((a.count + b.count) * j.max == a.count * j.max + b.count * j.max)
        by (nonlinear_arith);
}

/// Joining adds the row counts and keeps the bound on the values.
pub proof fn lemma_join_bounded(a: Summary, b: Summary, rows_a: int, rows_b: int, limit: int)
    requires
        a.bounded(rows_a, limit),
        b.bounded(rows_b, limit),
    ensures
        join(a, b).bounded(rows_a + rows_b, limit),
{
    assert(limit * (a.count + b.count) == limit * a.count + limit * b.count)
        by (nonlinear_arith);
    assert(-limit * (a.count + b.count) == -limit * a.count + -limit * b.count)
        by (nonlinear_arith);
}

/// The running aggregate of one key. Values are fixed-point integers, scaled
/// by ten.
#[derive(Clone, Copy, Debug)]
pub struct Station {
    pub cnt: u32,
    pub sum: i64,
    pub min: i64,
    pub max: i64,
}

impl View for Station {
    type V = Summary;

    open spec fn view(&self) -> Summary {
        Summary {
            count: self.cnt as nat,
            sum: self.sum as int,
            min: self.min as int,
            max: self.max as int,
        }
    }
}

impl Station {
    /// The station's invariant is that of its summary.
    pub open spec fn wf(&self) -> bool {
        self@.wf()
    }

    /// Whether `self` and `other` can be merged without leaving the range of
    /// the counter or of the sum.
    pub open spec fn can_merge(&self, other: &Station) -> bool {
        &&& self.cnt + other.cnt <= u32::MAX
        &&& i64::MIN <= self.sum + other.sum <= i64::MAX
    }

    /// A station that has seen `value` once.
    pub fn new(value: i64) -> (station: Station)
        ensures
            station@ == single(value as int),
            station.wf(),
    {
        Station { cnt: 1, sum: value, min: value, max: value }
    }

    /// Folds one more observation into the station.
    pub fn observe(&mut self, value: i64)
        requires
            old(self).wf(),
            old(self).cnt < u32::MAX,
            i64::MIN <= old(self).sum + value <= i64::MAX,
        ensures
            final(self)@ == join(old(self)@, single(value as int)),
            final(self).wf(),
    {
        proof {
            lemma_join_wf(self@, single(value as int));
        }
        self.cnt = self.cnt + 1;
        self.sum = self.sum + value;
        if value < self.min {
            self.min = value;
        }
        if value > self.max {
            self.max = value;
        }
    }

    /// Folds all the observations of `other` into the station.
    pub fn merge(&mut self, other: &Station)
        requires
            old(self).wf(),
            other.wf(),
            old(self).can_merge(other),
        ensures
            final(self)@ == join(old(self)@, other@),
            final(self).wf(),
    {
        proof {
            lemma_join_wf(self@, other@);
        }
        self.cnt = self.cnt + other.cnt;
        self.sum = self.sum + other.sum;
        if other.min < self.min {
            self.min = other.min;
        }
        if other.max > self.max {
            self.max = other.max;
        }
    }
}

} // verus!
