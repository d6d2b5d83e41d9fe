//! Sampling: how a random target picks the next window from a row, and the
//! text that a sequence of targets generates.

use crate::cell::{share, ProbCell};
use crate::chain::{
    count_sum, joins_known, lemma_row_total_is_count_sum, lemma_tally_le_total, normalized,
    numer_sum, row_total, valid, ChainView,
};
use crate::sparse::{row_of, Triple};
use vstd::prelude::*;

verus! {

/// A target is a fraction of this scale: the target `t` stands for the
/// number `t / TARGET_SCALE`, which lies in `[0, 1)`.
pub const TARGET_SCALE: u64 = 0x1_0000_0000;

/// The cumulative probability `cum / denom` has reached the target. A zero
/// denominator stands for the probability zero.
pub open spec fn reached(cum: nat, denom: usize, target: u32) -> bool {
    if denom == 0 {
        target == 0
    } else {
        cum * TARGET_SCALE >= target * denom
    }
}

/// Whether the cumulative probability `cum / denom` has reached the target.
pub fn reaches(cum: usize, denom: usize, target: u32) -> (r: bool)
    ensures
        r == reached(cum as nat, denom, target),
{
    if denom == 0 {
        target == 0
    } else {
        assert((target as u128) * (denom as u128) <= 0xffff_ffff * 0xffff_ffff_ffff_ffff)
            by (nonlinear_arith)
            requires
                target <= 0xffff_ffff,
                denom <= 0xffff_ffff_ffff_ffff,
        ;
        assert((cum as u128) * (TARGET_SCALE as u128) <= 0xffff_ffff_ffff_ffff * 0x1_0000_0000)
            by (nonlinear_arith)
            requires
                cum <= 0xffff_ffff_ffff_ffff,
                TARGET_SCALE == 0x1_0000_0000,
        ;
        (cum as u128) * (TARGET_SCALE as u128) >= (target as u128) * (denom as u128)
    }
}

/// The target window of the first cell from `from` on at which the
/// cumulative probability of the row reaches the target.
pub open spec fn pick_from(cells: Seq<(usize, ProbCell)>, target: u32, from: int) -> Option<usize>
    decreases cells.len() - from,
{
    if from < 0 || from >= cells.len() {
        None
    } else if reached(numer_sum(cells.take(from + 1)), cells[from].1.prob.denom, target) {
        Some(cells[from].0)
    } else {
        pick_from(cells, target, from + 1)
    }
}

/// The window that follows a row under a target: the cells are read in
/// stored order, their probabilities are added up, and the first cell at
/// which the sum reaches the target names the window. `None` is a dead end.
pub open spec fn pick(cells: Seq<(usize, ProbCell)>, target: u32) -> Option<usize> {
    pick_from(cells, target, 0)
}

/// Reading one more cell of a row adds the numerator of its probability.
pub proof fn lemma_numer_sum_step(cells: Seq<(usize, ProbCell)>, i: int)
    requires
        0 <= i < cells.len(),
    ensures
        numer_sum(cells.take(i + 1)) == numer_sum(cells.take(i)) + cells[i].1.prob.numer,
        numer_sum(cells.take(i + 1)) <= numer_sum(cells),
    decreases cells.len() - i,
{
    assert(cells.take(i + 1).drop_last() =~= cells.take(i));
    if i + 1 < cells.len() {
        lemma_numer_sum_step(cells, i + 1);
    } else {
        assert(cells.take(i + 1) =~= cells);
    }
}

/// Every cell of the row holds the share of its count in `total`.
pub open spec fn row_shares(cells: Seq<(usize, ProbCell)>, total: usize) -> bool {
    forall|j: int|
        0 <= j < cells.len() ==> (#[trigger] cells[j]).1.prob == share(cells[j].1.count, total)
}

/// Reading a row keeps what holds of each of its cells.
pub proof fn lemma_row_of_shares(s: Seq<Triple<ProbCell>>, row: usize, total: usize, bound: nat)
    requires
        forall|i: int|
            0 <= i < s.len() && (#[trigger] s[i]).row == row ==> s[i].value.prob == share(
                s[i].value.count,
                total,
            ) && s[i].col < bound && s[i].value.count >= 1,
    ensures
        row_shares(row_of(s, row), total),
        forall|j: int|
            0 <= j < row_of(s, row).len() ==> (#[trigger] row_of(s, row)[j]).0 < bound && row_of(
                s,
                row,
            )[j].1.count >= 1,
    decreases s.len(),
{
    if s.len() > 0 {
        let init = s.drop_last();
        assert forall|i: int| 0 <= i < init.len() && (#[trigger] init[i]).row == row implies init[i].value.prob
            == share(init[i].value.count, total) && init[i].col < bound && init[i].value.count
            >= 1 by {
            assert(init[i] == s[i]);
        }
        lemma_row_of_shares(init, row, total, bound);
        assert(s[s.len() - 1] == s.last());
    }
}

/// In a row whose cells hold their shares of a positive total, the
/// numerators add up to the counts.
pub proof fn lemma_shares_sum(cells: Seq<(usize, ProbCell)>, total: usize)
    requires
        row_shares(cells, total),
        total > 0,
    ensures
        numer_sum(cells) == count_sum(cells),
    decreases cells.len(),
{
    if cells.len() > 0 {
        let init = cells.drop_last();
        assert forall|j: int| 0 <= j < init.len() implies (#[trigger] init[j]).1.prob == share(
            init[j].1.count,
            total,
        ) by {
            assert(init[j] == cells[j]);
        }
        lemma_shares_sum(init, total);
        assert(cells[cells.len() - 1] == cells.last());
    }
}

/// What a valid chain with derived probabilities holds in one row: each
/// cell has the share of its count in the row's total, the numerators add
/// up to that total, each cell leads to a known window, and a row with a
/// cell has a positive total.
pub proof fn lemma_row_facts(m: ChainView, row: usize)
    requires
        valid(m),
        normalized(m.cells),
    ensures
        row_total(m.cells, row) <= usize::MAX,
        row_shares(row_of(m.cells, row), row_total(m.cells, row) as usize),
        count_sum(row_of(m.cells, row)) == row_total(m.cells, row),
        row_of(m.cells, row).len() > 0 ==> row_total(m.cells, row) > 0 && numer_sum(
            row_of(m.cells, row),
        ) == row_total(m.cells, row),
        forall|j: int|
            0 <= j < row_of(m.cells, row).len() ==> (#[trigger] row_of(m.cells, row)[j]).0
                < m.windows.len(),
{
    let s = m.cells;
    let cells = row_of(s, row);
    let total = row_total(s, row);
    lemma_tally_le_total(s, Some(row));
    lemma_row_total_is_count_sum(s, row);
    lemma_row_of_shares(s, row, total as usize, m.windows.len());
    if cells.len() > 0 {
        assert(cells[cells.len() - 1].1.count >= 1);
        assert(count_sum(cells) >= cells.last().1.count);
        lemma_shares_sum(cells, total as usize);
    }
}

/// A row without stored cells is empty when read.
pub proof fn lemma_row_of_unused<T>(s: Seq<Triple<T>>, row: usize)
    requires
        forall|i: int| 0 <= i < s.len() ==> (#[trigger] s[i]).row != row,
    ensures
        row_of(s, row).len() == 0,
    decreases s.len(),
{
    if s.len() > 0 {
        let init = s.drop_last();
        assert forall|i: int| 0 <= i < init.len() implies (#[trigger] init[i]).row != row by {
            assert(init[i] == s[i]);
        }
        lemma_row_of_unused(init, row);
        assert(s[s.len() - 1].row != row);
    }
}

/// In a valid chain, a row that holds a cell is the row of a known window
/// of the chain's order.
pub proof fn lemma_row_window(m: ChainView, row: usize)
    requires
        valid(m),
        row_of(m.cells, row).len() > 0,
    ensures
        row < m.windows.len(),
        m.windows[row as int].len() == m.order,
{
    if forall|i: int| 0 <= i < m.cells.len() ==> (#[trigger] m.cells[i]).row != row {
        lemma_row_of_unused(m.cells, row);
    } else {
        let i = choose|i: int| 0 <= i < m.cells.len() && (#[trigger] m.cells[i]).row == row;
        assert(joins_known(m.windows, m.order, m.cells[i]));
    }
}

/// If some cell from `from` on reaches the target, a window is picked, and
/// it is the target window of a cell of the row.
pub proof fn lemma_pick_from_some(cells: Seq<(usize, ProbCell)>, target: u32, from: int, at: int)
    requires
        0 <= from <= at < cells.len(),
        reached(numer_sum(cells.take(at + 1)), cells[at].1.prob.denom, target),
    ensures
        pick_from(cells, target, from) is Some,
        exists|j: int|
            from <= j <= at && pick_from(cells, target, from) == Some((#[trigger] cells[j]).0),
    decreases at - from,
{
    if reached(numer_sum(cells.take(from + 1)), cells[from].1.prob.denom, target) {
        assert(pick_from(cells, target, from) == Some(cells[from].0));
    } else {
        lemma_pick_from_some(cells, target, from + 1, at);
        let j = choose|j: int|
            from + 1 <= j <= at && pick_from(cells, target, from + 1) == Some(
                (#[trigger] cells[j]).0,
            );
        assert(pick_from(cells, target, from) == Some(cells[j].0));
    }
}

/// In a valid chain with derived probabilities, a row without cells is a
/// dead end under every target, and a row with a cell belongs to a window
/// of the chain's order and always leads to a known window.
pub proof fn lemma_pick(m: ChainView, row: usize, target: u32)
    requires
        valid(m),
        normalized(m.cells),
    ensures
        row_of(m.cells, row).len() == 0 <==> pick(row_of(m.cells, row), target) is None,
        pick(row_of(m.cells, row), target) matches Some(next) ==> next < m.windows.len() && row
            < m.windows.len() && m.windows[row as int].len() == m.order,
{
    let cells = row_of(m.cells, row);
    lemma_row_facts(m, row);
    if cells.len() > 0 {
        lemma_row_window(m, row);
        let at = cells.len() - 1;
        let total = row_total(m.cells, row);
        assert(cells.take(at + 1) =~= cells);
        assert(cells[at].1.prob.denom == total);
        assert(total * TARGET_SCALE >= target * total) by (nonlinear_arith)
            requires
                total >= 0,
                0 <= target < TARGET_SCALE,
        ;
        lemma_pick_from_some(cells, target, 0, at);
    }
}

/// The text that a walk generates, and whether it ended at a dead end.
/// The walk starts at the window `cur` and is to produce `len` symbols.
/// Each step takes one target: it appends the current window, cut where
/// `len` symbols are reached, and picks the next window from the current
/// row. A row that picks no window ends the walk early.
pub open spec fn run(m: ChainView, len: nat, cur: int, targets: Seq<u32>) -> (Seq<char>, bool)
    decreases targets.len(),
{
    if len == 0 || targets.len() == 0 {
        (Seq::empty(), false)
    } else if m.windows[cur].len() >= len {
        (m.windows[cur].take(len as int), false)
    } else {
        match pick(row_of(m.cells, cur as usize), targets[0]) {
            None => (m.windows[cur], true),
            Some(next) => {
                let rest = run(
                    m,
                    (len - m.windows[cur].len()) as nat,
                    next as int,
                    targets.drop_first(),
                );
                (m.windows[cur] + rest.0, rest.1)
            },
        }
    }
}

/// A text with the outcome of a walk behind it.
pub open spec fn glue(out: Seq<char>, rest: (Seq<char>, bool)) -> (Seq<char>, bool) {
    (out + rest.0, rest.1)
}

/// The targets `used` have led from `start` to `cur` and produced `out`:
/// whatever targets follow, the walk goes on from `cur`.
pub open spec fn continues(
    m: ChainView,
    len: nat,
    start: int,
    used: Seq<u32>,
    out: Seq<char>,
    cur: int,
) -> bool {
    forall|rest: Seq<u32>| #[trigger]
        run(m, len, start, used + rest) == glue(out, run(m, (len - out.len()) as nat, cur, rest))
}

/// The targets `used` have ended the walk from `start` with `out`,
/// whatever targets follow.
pub open spec fn finished(
    m: ChainView,
    len: nat,
    start: int,
    used: Seq<u32>,
    out: Seq<char>,
    stalled: bool,
) -> bool {
    forall|rest: Seq<u32>| #[trigger] run(m, len, start, used + rest) == (out, stalled)
}

/// Nothing used and nothing produced: the walk is about to begin.
pub proof fn lemma_walk_begins(m: ChainView, len: nat, start: int)
    ensures
        continues(m, len, start, Seq::empty(), Seq::empty(), start),
{
    assert forall|rest: Seq<u32>| #[trigger]
        run(m, len, start, Seq::<u32>::empty() + rest) == glue(
            Seq::<char>::empty(),
            run(m, (len - Seq::<char>::empty().len()) as nat, start, rest),
        ) by {
        assert(Seq::<u32>::empty() + rest =~= rest);
        let r = run(m, len, start, rest);
        assert(Seq::<char>::empty() + r.0 =~= r.0);
    }
}

/// One more target takes the walk one step further, or ends it.
pub proof fn lemma_walk_step(
    m: ChainView,
    len: nat,
    start: int,
    used: Seq<u32>,
    out: Seq<char>,
    cur: int,
    target: u32,
)
    requires
        continues(m, len, start, used, out, cur),
        out.len() < len,
    ensures
        ({
            let w = m.windows[cur];
            let rem = len - out.len();
            if w.len() >= rem {
                finished(m, len, start, used.push(target), out + w.take(rem), false)
            } else {
                match pick(row_of(m.cells, cur as usize), target) {
                    None => finished(m, len, start, used.push(target), out + w, true),
                    Some(next) => continues(
                        m,
                        len,
                        start,
                        used.push(target),
                        out + w,
                        next as int,
                    ),
                }
            }
        }),
{
    let w = m.windows[cur];
    let rem = (len - out.len()) as nat;
    assert forall|rest: Seq<u32>|
        #[trigger] run(m, len, start, used.push(target) + rest) == glue(
            out,
            run(m, rem, cur, seq![target] + rest),
        ) && (seq![target] + rest).drop_first() == rest && (seq![target] + rest)[0] == target by {
        let more = seq![target] + rest;
        assert(used.push(target) + rest =~= used + more);
        assert(run(m, len, start, used + more) == glue(out, run(m, rem, cur, more)));
        assert(more.drop_first() =~= rest);
    }
    if w.len() >= rem {
        assert forall|rest: Seq<u32>| #[trigger]
            run(m, len, start, used.push(target) + rest) == (out + w.take(rem as int), false) by {
            assert((seq![target] + rest).len() > 0);
        }
    } else {
        match pick(row_of(m.cells, cur as usize), target) {
            None => {
                assert forall|rest: Seq<u32>| #[trigger]
                    run(m, len, start, used.push(target) + rest) == (out + w, true) by {
                    assert((seq![target] + rest).len() > 0);
                }
            },
            Some(next) => {
                assert forall|rest: Seq<u32>| #[trigger]
                    run(m, len, start, used.push(target) + rest) == glue(
                        out + w,
                        run(m, (len - (out + w).len()) as nat, next as int, rest),
                    ) by {
                    assert((seq![target] + rest).len() > 0);
                    let tail = run(m, (rem - w.len()) as nat, next as int, rest);
                    assert(out + (w + tail.0) =~= (out + w) + tail.0);
                }
            },
        }
    }
}

/// A walk that has produced all its symbols has ended, and not at a dead end.
pub proof fn lemma_walk_complete(
    m: ChainView,
    len: nat,
    start: int,
    used: Seq<u32>,
    out: Seq<char>,
    cur: int,
)
    requires
        continues(m, len, start, used, out, cur),
        out.len() == len,
    ensures
        finished(m, len, start, used, out, false),
{
    assert forall|rest: Seq<u32>| #[trigger] run(m, len, start, used + rest) == (out, false) by {
        assert(run(m, len, start, used + rest) == glue(out, run(m, 0, cur, rest)));
        assert(out + Seq::<char>::empty() =~= out);
    }
}

/// A walk that has ended is the walk of some `wanted` targets.
pub proof fn lemma_walk_targets(
    m: ChainView,
    len: nat,
    start: int,
    used: Seq<u32>,
    out: Seq<char>,
    stalled: bool,
    wanted: nat,
)
    requires
        finished(m, len, start, used, out, stalled),
        used.len() <= wanted,
    ensures
        exists|targets: Seq<u32>|
            targets.len() == wanted && #[trigger] run(m, len, start, targets) == (out, stalled),
{
    let rest = Seq::new((wanted - used.len()) as nat, |i: int| 0u32);
    let targets = used + rest;
    assert(run(m, len, start, used + rest) == (out, stalled));
    assert(targets.len() == wanted);
}

/// `text` is what some walk of `len` targets generates from some known
/// window, and it is shorter than `len` exactly if that walk met a dead end.
pub open spec fn generated(m: ChainView, len: nat, text: Seq<char>) -> bool {
    exists|start: int, targets: Seq<u32>|
        0 <= start < m.windows.len() && targets.len() == len && #[trigger] run(
            m,
            len,
            start,
            targets,
        ) == (text, text.len() < len)
}

/// A row that holds a stored cell is not empty when read.
pub proof fn lemma_row_of_nonempty(s: Seq<Triple<ProbCell>>, row: usize, at: int)
    requires
        0 <= at < s.len(),
        s[at].row == row,
    ensures
        row_of(s, row).len() > 0,
    decreases s.len(),
{
    if at < s.len() - 1 {
        let init = s.drop_last();
        assert(init[at] == s[at]);
        lemma_row_of_nonempty(init, row, at);
    }
}

} // verus!
