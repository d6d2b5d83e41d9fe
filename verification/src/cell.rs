//! What the chain stores for one transition: how often it was seen, and the
//! probability that was last derived from the counts of its row.

use vstd::prelude::*;

verus! {

/// A probability kept as an exact fraction. A zero denominator stands for
/// the probability zero.
#[derive(Clone, Copy, Debug, PartialEq, Eq, Structural)]
pub struct Probability {
    pub numer: usize,
    pub denom: usize,
}

/// Two fractions denote the same probability.
pub open spec fn same_probability(p: Probability, q: Probability) -> bool {
    p.numer * q.denom == q.numer * p.denom
}

/// The probability of a cell seen `count` times in a row seen `total` times.
pub open spec fn share(count: usize, total: usize) -> Probability {
    if total == 0 {
        Probability { numer: 0, denom: 0 }
    } else {
        Probability { numer: count, denom: total }
    }
}

impl Probability {
    /// The probability zero.
    pub fn zero() -> (p: Probability)
        ensures
            p == (Probability { numer: 0, denom: 0 }),
    {
        Probability { numer: 0, denom: 0 }
    }

    /// `count` out of `total`, or zero where the row was never seen.
    pub fn of(count: usize, total: usize) -> (p: Probability)
        ensures
            p == share(count, total),
    {
        if total == 0 {
            Probability::zero()
        } else {
            Probability { numer: count, denom: total }
        }
    }
}

/// One transition: its count and its probability.
#[derive(Clone, Copy, Debug, PartialEq, Eq, Structural)]
pub struct ProbCell {
    pub prob: Probability,
    pub count: usize,
}

/// The cell with its probability set to the share of its count in `total`.
pub open spec fn with_share(cell: ProbCell, total: usize) -> ProbCell {
    ProbCell { prob: share(cell.count, total), count: cell.count }
}

impl ProbCell {
    /// The cell with its probability derived anew from a row total.
    pub fn rescaled(self, total: usize) -> (out: ProbCell)
        ensures
            out == with_share(self, total),
    {
        ProbCell { prob: Probability::of(self.count, total), count: self.count }
    }
}

} // verus!
