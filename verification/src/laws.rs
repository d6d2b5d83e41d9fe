//! What holds of training and generation as a whole.

use crate::cell::{same_probability, share, ProbCell, Probability};
use crate::chain::{
    bump, counted, fit_spec, id_after, learn, lemma_learn, lemma_normalize, lemma_observe,
    lemma_same_counts, lemma_tally_le_total, lemma_tally_member, lemma_window_id,
    lemma_window_id_unique, normalized, numer_sum, observe, pair_total, row_total, same_counts,
    tally, train, valid, window_at, window_id, ChainView,
};
use crate::sparse::{key_index, lemma_key_index, lemma_put_lookup, lookup, row_of, Triple};
use crate::walk::{lemma_pick, lemma_row_facts, lemma_row_of_nonempty, pick, run};
use vstd::prelude::*;

verus! {

/// How often the chain has seen the window `src` followed by `dst`.
pub open spec fn count_of(m: ChainView, src: Seq<char>, dst: Seq<char>) -> nat {
    match (window_id(m.windows, src), window_id(m.windows, dst)) {
        (Some(a), Some(b)) => match lookup(m.cells, a as usize, b as usize) {
            Some(cell) => cell.count as nat,
            None => 0,
        },
        _ => 0,
    }
}

/// How often the chain has seen the window `src` followed by any window.
pub open spec fn total_of(m: ChainView, src: Seq<char>) -> nat {
    match window_id(m.windows, src) {
        Some(a) => row_total(m.cells, a as usize),
        None => 0,
    }
}

/// Among the first `upto` pairs of adjacent windows of `text`, the number
/// of those that are `src` followed by `dst`.
pub open spec fn pair_count(
    text: Seq<char>,
    order: nat,
    upto: nat,
    src: Seq<char>,
    dst: Seq<char>,
) -> nat
    decreases upto,
{
    if upto == 0 {
        0
    } else {
        let i = upto - 1;
        pair_count(text, order, i as nat, src, dst) + if window_at(text, i, order) == src
            && window_at(text, i + order, order) == dst {
            1nat
        } else {
            0nat
        }
    }
}

/// Among the first `upto` pairs of adjacent windows of `text`, the number
/// of those that begin with `src`.
pub open spec fn source_count(text: Seq<char>, order: nat, upto: nat, src: Seq<char>) -> nat
    decreases upto,
{
    if upto == 0 {
        0
    } else {
        let i = upto - 1;
        source_count(text, order, i as nat, src) + if window_at(text, i, order) == src {
            1nat
        } else {
            0nat
        }
    }
}

/// A position outside the known windows holds no cell.
pub proof fn lemma_lookup_out_of_range(m: ChainView, row: usize, col: usize)
    requires
        valid(m),
        row >= m.windows.len() || col >= m.windows.len(),
    ensures
        lookup(m.cells, row, col) is None,
        row >= m.windows.len() ==> row_total(m.cells, row) == 0,
{
    lemma_key_index(m.cells, row, col);
    if row >= m.windows.len() {
        lemma_row_total_unused(m.cells, row);
    }
}

/// A row without cells has the total zero.
pub proof fn lemma_row_total_unused(s: Seq<Triple<ProbCell>>, row: usize)
    requires
        forall|i: int| 0 <= i < s.len() ==> (#[trigger] s[i]).row != row,
    ensures
        row_total(s, row) == 0,
    decreases s.len(),
{
    if s.len() > 0 {
        let init = s.drop_last();
        assert forall|i: int| 0 <= i < init.len() implies (#[trigger] init[i]).row != row by {
            assert(init[i] == s[i]);
        }
        lemma_row_total_unused(init, row);
        assert(s[s.len() - 1].row != row);
    }
}

/// One observation adds one to the count of the observed pair and to the
/// total of its source, and changes no other count or total.
pub proof fn lemma_observe_counts(
    m: ChainView,
    src: Seq<char>,
    dst: Seq<char>,
    v: Seq<char>,
    u: Seq<char>,
)
    requires
        valid(m),
        src.len() == m.order,
        dst.len() == m.order,
        tally(m.cells, None) < usize::MAX,
        observe(m, src, dst).windows.len() <= usize::MAX,
    ensures
        count_of(observe(m, src, dst), v, u) == count_of(m, v, u) + if v == src && u == dst {
            1nat
        } else {
            0nat
        },
        total_of(observe(m, src, dst), v) == total_of(m, v) + if v == src {
            1nat
        } else {
            0nat
        },
{
    let known = learn(m.windows, src);
    let after = observe(m, src, dst);
    lemma_observe(m, src, dst);
    lemma_learn(m.windows, src);
    lemma_learn(known, dst);
    let a = id_after(m.windows, src) as usize;
    let b = id_after(known, dst) as usize;
    lemma_window_id(m.windows, v);
    lemma_window_id(m.windows, u);
    lemma_window_id(m.windows, src);
    lemma_window_id(m.windows, dst);
    lemma_window_id(known, v);
    lemma_window_id(known, u);
    lemma_window_id(known, dst);
    lemma_window_id(after.windows, v);
    lemma_window_id(after.windows, u);
    assert(window_id(after.windows, src) == Some(a as int));
    assert(window_id(after.windows, dst) == Some(b as int));
    // A window that is new has had an empty row.
    match window_id(after.windows, v) {
        Some(x) => {
            if window_id(m.windows, v) is None {
                lemma_lookup_out_of_range(m, x as usize, 0);
            }
        },
        None => {},
    }
    // The cell of `v` and `u` is the written one exactly if they are `src` and `dst`.
    match (window_id(after.windows, v), window_id(after.windows, u)) {
        (Some(x), Some(y)) => {
            lemma_put_lookup(
                m.cells,
                a,
                b,
                bump(lookup(m.cells, a, b)),
                x as usize,
                y as usize,
            );
            if window_id(m.windows, v) is None || window_id(m.windows, u) is None {
                lemma_lookup_out_of_range(m, x as usize, y as usize);
            }
            if x == a && y == b {
                assert(v == src && u == dst);
                lemma_key_index(m.cells, a, b);
                if let Some(at) = key_index(m.cells, a, b) {
                    lemma_tally_member(m.cells, None, at);
                }
            }
        },
        _ => {},
    }
}

/// Training loses no window.
pub proof fn lemma_train_grows(m: ChainView, text: Seq<char>, upto: nat)
    ensures
        m.windows.len() <= train(m, text, upto).windows.len(),
        train(m, text, upto).order == m.order,
    decreases upto,
{
    if upto > 0 {
        let i = (upto - 1) as nat;
        let before = train(m, text, i);
        lemma_train_grows(m, text, i);
        assert(before.windows.len() <= learn(
            before.windows,
            window_at(text, i as int, m.order),
        ).len() <= train(m, text, upto).windows.len());
    }
}

/// Training keeps a chain valid and the ids of its windows, and adds one
/// to the sum of all counts for every pair that it sees.
pub proof fn lemma_train_valid(m: ChainView, text: Seq<char>, upto: nat)
    requires
        valid(m),
        upto <= pair_total(text.len(), m.order),
        tally(m.cells, None) + upto <= usize::MAX,
        train(m, text, upto).windows.len() <= usize::MAX,
    ensures
        valid(train(m, text, upto)),
        train(m, text, upto).order == m.order,
        tally(train(m, text, upto).cells, None) == tally(m.cells, None) + upto,
        m.windows.len() <= train(m, text, upto).windows.len() <= m.windows.len() + 2 * upto,
        upto > 0 ==> train(m, text, upto).windows.len() > 0,
        forall|j: int|
            0 <= j < m.windows.len() ==> train(m, text, upto).windows[j] == m.windows[j],
    decreases upto,
{
    if upto > 0 {
        let i = (upto - 1) as nat;
        let before = train(m, text, i);
        let src = window_at(text, i as int, m.order);
        let dst = window_at(text, (i + m.order) as int, m.order);
        assert(before.windows.len() <= learn(before.windows, src).len() <= train(
            m,
            text,
            upto,
        ).windows.len());
        lemma_train_valid(m, text, i);
        lemma_learn(before.windows, src);
        lemma_learn(learn(before.windows, src), dst);
        lemma_observe(before, src, dst);
    }
}

/// Training adds to each count the number of times that the text shows
/// the pair, and to each total the number of times that it shows the source.
pub proof fn lemma_train_counts(
    m: ChainView,
    text: Seq<char>,
    upto: nat,
    src: Seq<char>,
    dst: Seq<char>,
)
    requires
        valid(m),
        upto <= pair_total(text.len(), m.order),
        tally(m.cells, None) + upto <= usize::MAX,
        train(m, text, upto).windows.len() <= usize::MAX,
    ensures
        count_of(train(m, text, upto), src, dst) == count_of(m, src, dst) + pair_count(
            text,
            m.order,
            upto,
            src,
            dst,
        ),
        total_of(train(m, text, upto), src) == total_of(m, src) + source_count(
            text,
            m.order,
            upto,
            src,
        ),
    decreases upto,
{
    if upto > 0 {
        let i = (upto - 1) as nat;
        let before = train(m, text, i);
        lemma_train_valid(m, text, upto);
        assert(before.windows.len() <= learn(
            before.windows,
            window_at(text, i as int, m.order),
        ).len() <= train(m, text, upto).windows.len());
        lemma_train_valid(m, text, i);
        lemma_train_counts(m, text, i, src, dst);
        let a = window_at(text, i as int, m.order);
        let b = window_at(text, (i + m.order) as int, m.order);
        lemma_observe_counts(before, a, b, src, dst);
    }
}

/// Cells that differ in their probabilities only are found at the same places.
pub proof fn lemma_same_counts_key_index(
    a: Seq<Triple<ProbCell>>,
    b: Seq<Triple<ProbCell>>,
    row: usize,
    col: usize,
)
    requires
        same_counts(a, b),
    ensures
        key_index(a, row, col) == key_index(b, row, col),
    decreases a.len(),
{
    if a.len() > 0 {
        let a0 = a.drop_last();
        let b0 = b.drop_last();
        assert forall|i: int| 0 <= i < a0.len() implies {
            &&& (#[trigger] a0[i]).row == b0[i].row
            &&& a0[i].col == b0[i].col
            &&& a0[i].value.count == b0[i].value.count
        } by {
            assert(a0[i] == a[i] && b0[i] == b[i]);
        }
        lemma_same_counts_key_index(a0, b0, row, col);
        assert(a[a.len() - 1].row == b[a.len() - 1].row);
    }
}

/// Learning a text keeps a chain valid, leaves it with probabilities that
/// follow from its counts, keeps the id of every window it knew, and adds
/// to the sum of all counts the number of pairs of the text.
pub proof fn lemma_fit_valid(m: ChainView, text: Seq<char>)
    requires
        valid(m),
        tally(m.cells, None) + pair_total(text.len(), m.order) <= usize::MAX,
        fit_spec(m, text).windows.len() <= usize::MAX,
    ensures
        valid(fit_spec(m, text)),
        normalized(fit_spec(m, text).cells),
        fit_spec(m, text).order == m.order,
        m.windows.len() <= fit_spec(m, text).windows.len() <= m.windows.len() + 2 * pair_total(
            text.len(),
            m.order,
        ),
        forall|j: int| 0 <= j < m.windows.len() ==> fit_spec(m, text).windows[j] == m.windows[j],
        tally(fit_spec(m, text).cells, None) == tally(m.cells, None) + pair_total(
            text.len(),
            m.order,
        ),
{
    let upto = pair_total(text.len(), m.order);
    let seen = train(m, text, upto);
    lemma_train_valid(m, text, upto);
    lemma_normalize(seen);
    lemma_same_counts(seen, fit_spec(m, text).cells);
}

/// Learning a text adds to each count the number of times that the text
/// shows the pair of windows, and to each total the number of times that
/// it shows the source: the counts are those of a direct scan of the text.
pub proof fn lemma_fit_counts(m: ChainView, text: Seq<char>, src: Seq<char>, dst: Seq<char>)
    requires
        valid(m),
        tally(m.cells, None) + pair_total(text.len(), m.order) <= usize::MAX,
        fit_spec(m, text).windows.len() <= usize::MAX,
    ensures
        count_of(fit_spec(m, text), src, dst) == count_of(m, src, dst) + pair_count(
            text,
            m.order,
            pair_total(text.len(), m.order),
            src,
            dst,
        ),
        total_of(fit_spec(m, text), src) == total_of(m, src) + source_count(
            text,
            m.order,
            pair_total(text.len(), m.order),
            src,
        ),
{
    let upto = pair_total(text.len(), m.order);
    let seen = train(m, text, upto);
    let after = fit_spec(m, text);
    lemma_train_valid(m, text, upto);
    lemma_train_counts(m, text, upto, src, dst);
    lemma_normalize(seen);
    lemma_same_counts(seen, after.cells);
    match (window_id(seen.windows, src), window_id(seen.windows, dst)) {
        (Some(a), Some(b)) => {
            lemma_same_counts_key_index(seen.cells, after.cells, a as usize, b as usize);
            lemma_key_index(seen.cells, a as usize, b as usize);
        },
        _ => {},
    }
}

/// The probabilities of the row add up to one: they share one positive
/// denominator, and their numerators add up to it.
pub open spec fn sums_to_one(cells: Seq<(usize, ProbCell)>) -> bool {
    &&& numer_sum(cells) > 0
    &&& forall|j: int|
        0 <= j < cells.len() ==> (#[trigger] cells[j]).1.prob.denom == numer_sum(cells)
}

/// In a valid chain whose probabilities are derived from its counts, the
/// probabilities of every row that holds a cell add up to one.
pub proof fn lemma_rows_sum_to_one(m: ChainView, row: usize)
    requires
        valid(m),
        normalized(m.cells),
        row_of(m.cells, row).len() > 0,
    ensures
        sums_to_one(row_of(m.cells, row)),
{
    lemma_row_facts(m, row);
}

/// The probability that the chain holds for the step from `src` to `dst`.
pub open spec fn prob_of(m: ChainView, src: Seq<char>, dst: Seq<char>) -> Probability {
    match (window_id(m.windows, src), window_id(m.windows, dst)) {
        (Some(a), Some(b)) => match lookup(m.cells, a as usize, b as usize) {
            Some(cell) => cell.prob,
            None => Probability { numer: 0, denom: 0 },
        },
        _ => Probability { numer: 0, denom: 0 },
    }
}

/// In a valid chain with derived probabilities, the probability of a step
/// that was seen is the share of its count in the total of its source,
/// and that of a step never seen is zero.
pub proof fn lemma_prob_of(m: ChainView, src: Seq<char>, dst: Seq<char>)
    requires
        valid(m),
        normalized(m.cells),
    ensures
        count_of(m, src, dst) <= total_of(m, src) <= usize::MAX,
        prob_of(m, src, dst) == if count_of(m, src, dst) > 0 {
            share(count_of(m, src, dst) as usize, total_of(m, src) as usize)
        } else {
            Probability { numer: 0, denom: 0 }
        },
{
    lemma_window_id(m.windows, src);
    lemma_window_id(m.windows, dst);
    match window_id(m.windows, src) {
        Some(a) => {
            lemma_tally_le_total(m.cells, Some(a as usize));
        },
        None => {},
    }
    match (window_id(m.windows, src), window_id(m.windows, dst)) {
        (Some(a), Some(b)) => {
            lemma_key_index(m.cells, a as usize, b as usize);
            if let Some(at) = key_index(m.cells, a as usize, b as usize) {
                lemma_tally_member(m.cells, Some(a as usize), at);
            }
        },
        _ => {},
    }
}

/// A chain without counts that learns the same text twice holds, after
/// the second time, twice each count that it held after the first, and
/// the same probabilities.
pub proof fn lemma_fit_twice(m: ChainView, text: Seq<char>, src: Seq<char>, dst: Seq<char>)
    requires
        valid(m),
        m.cells.len() == 0,
        2 * pair_total(text.len(), m.order) <= usize::MAX,
        fit_spec(fit_spec(m, text), text).windows.len() <= usize::MAX,
    ensures
        count_of(fit_spec(fit_spec(m, text), text), src, dst) == 2 * count_of(
            fit_spec(m, text),
            src,
            dst,
        ),
        same_probability(
            prob_of(fit_spec(fit_spec(m, text), text), src, dst),
            prob_of(fit_spec(m, text), src, dst),
        ),
{
    let once = fit_spec(m, text);
    let twice = fit_spec(once, text);
    lemma_row_total_unused(m.cells, 0);
    assert(tally(m.cells, None) == 0);
    lemma_train_grows(once, text, pair_total(text.len(), once.order));
    lemma_fit_valid(m, text);
    lemma_fit_counts(m, text, src, dst);
    lemma_fit_valid(once, text);
    lemma_fit_counts(once, text, src, dst);
    lemma_prob_of(once, src, dst);
    lemma_prob_of(twice, src, dst);
    assert(count_of(m, src, dst) == 0) by {
        match (window_id(m.windows, src), window_id(m.windows, dst)) {
            (Some(a), Some(b)) => {
                lemma_key_index(m.cells, a as usize, b as usize);
            },
            _ => {},
        }
    }
    assert(total_of(m, src) == 0) by {
        match window_id(m.windows, src) {
            Some(a) => {
                lemma_row_total_unused(m.cells, a as usize);
            },
            None => {},
        }
    }
    let c = count_of(once, src, dst);
    let t = total_of(once, src);
    assert(count_of(twice, src, dst) == 2 * c);
    assert(total_of(twice, src) == 2 * t);
    assert((2 * c) * t == c * (2 * t)) by (nonlinear_arith);
}

/// The window `w` repeated and cut after `len` symbols.
pub open spec fn repeated(w: Seq<char>, len: nat) -> Seq<char>
    decreases len,
{
    if w.len() == 0 || len <= w.len() {
        w.take(len as int)
    } else {
        w + repeated(w, (len - w.len()) as nat)
    }
}

/// A walk with enough targets never produces more than `len` symbols, and
/// fewer exactly if it met a dead end.
pub proof fn lemma_run_length(m: ChainView, len: nat, cur: int, targets: Seq<u32>)
    requires
        valid(m),
        normalized(m.cells),
        0 <= cur < m.windows.len(),
        targets.len() >= len,
    ensures
        run(m, len, cur, targets).0.len() <= len,
        run(m, len, cur, targets).1 <==> run(m, len, cur, targets).0.len() < len,
    decreases targets.len(),
{
    if len > 0 && m.windows[cur].len() < len {
        lemma_pick(m, cur as usize, targets[0]);
        match pick(row_of(m.cells, cur as usize), targets[0]) {
            Some(next) => {
                assert(m.windows[cur].len() == m.order);
                lemma_run_length(
                    m,
                    (len - m.windows[cur].len()) as nat,
                    next as int,
                    targets.drop_first(),
                );
            },
            None => {},
        }
    }
}

/// In a chain that knows one window, the one row holds at most one cell,
/// and that cell counts the whole row.
pub proof fn lemma_single_cell_row(m: ChainView)
    requires
        valid(m),
        m.windows.len() == 1,
    ensures
        m.cells.len() <= 1,
        m.cells.len() == 1 ==> row_total(m.cells, 0) == m.cells[0].value.count,
{
    if m.cells.len() >= 2 {
        assert(m.cells[0].row == 0 && m.cells[1].row == 0);
        assert(m.cells[0].col == 0 && m.cells[1].col == 0);
    }
    if m.cells.len() == 1 {
        assert(m.cells.drop_last().len() == 0);
        assert(m.cells.last() == m.cells[0]);
        assert(m.cells[0].row == 0);
        assert(tally(m.cells.drop_last(), Some(0usize)) == 0);
        assert(counted(m.cells[0], Some(0usize)) == m.cells[0].value.count);
    }
}

/// A chain that knows one window, with the step from that window to
/// itself, generates that window over and over, and meets no dead end.
pub proof fn lemma_single_window(m: ChainView, len: nat, targets: Seq<u32>)
    requires
        valid(m),
        normalized(m.cells),
        m.windows.len() == 1,
        lookup(m.cells, 0, 0) is Some,
        targets.len() >= len,
    ensures
        prob_of(m, m.windows[0], m.windows[0]).numer == prob_of(
            m,
            m.windows[0],
            m.windows[0],
        ).denom,
        prob_of(m, m.windows[0], m.windows[0]).denom > 0,
        run(m, len, 0, targets) == (repeated(m.windows[0], len), false),
    decreases targets.len(),
{
    let w = m.windows[0];
    lemma_key_index(m.cells, 0, 0);
    let at = key_index(m.cells, 0, 0)->0;
    lemma_row_of_nonempty(m.cells, 0, at);
    lemma_window_id_unique(m.windows, 0);
    lemma_prob_of(m, w, w);
    lemma_rows_sum_to_one(m, 0);
    lemma_single_cell_row(m);
    if len > 0 && w.len() < len {
        lemma_pick(m, 0, targets[0]);
        lemma_single_window(m, (len - w.len()) as nat, targets.drop_first());
    }
}

} // verus!
