//! The chain as a mathematical value: the windows in the order in which
//! they were first seen, and the stored transitions. Training and
//! normalisation are defined on that value, and their laws are proved here.

use crate::cell::{share, ProbCell, Probability};
use crate::sparse::{
    insertion_point, key_index, keys_distinct, lemma_insertion_point, lemma_key_index,
    lemma_put_all, lemma_put_wf, lookup, put_spec, row_of, sorted_by_row, Triple,
};
use vstd::prelude::*;

verus! {

/// What a chain has learned.
pub struct ChainView {
    /// The number of symbols in a window.
    pub order: nat,
    /// The known windows; a window's position is its id.
    pub windows: Seq<Seq<char>>,
    /// The stored transitions, from the window `row` to the window `col`.
    pub cells: Seq<Triple<ProbCell>>,
}

/// The window of `k` symbols that starts at `i`.
pub open spec fn window_at(text: Seq<char>, i: int, k: nat) -> Seq<char> {
    text.subrange(i, i + k)
}

/// The id of a window, if it is known.
pub open spec fn window_id(windows: Seq<Seq<char>>, w: Seq<char>) -> Option<int>
    decreases windows.len(),
{
    if windows.len() == 0 {
        None
    } else if windows.last() == w {
        Some(windows.len() - 1)
    } else {
        window_id(windows.drop_last(), w)
    }
}

/// No window is known twice.
pub open spec fn windows_distinct(windows: Seq<Seq<char>>) -> bool {
    forall|i: int, j: int| 0 <= i < j < windows.len() ==> windows[i] != windows[j]
}

/// `window_id` finds a position that holds the window, and finds one
/// whenever the window is known.
pub proof fn lemma_window_id(windows: Seq<Seq<char>>, w: Seq<char>)
    ensures
        match window_id(windows, w) {
            Some(i) => 0 <= i < windows.len() && windows[i] == w,
            None => forall|j: int| 0 <= j < windows.len() ==> windows[j] != w,
        },
    decreases windows.len(),
{
    if windows.len() > 0 {
        let init = windows.drop_last();
        lemma_window_id(init, w);
        if windows.last() != w && window_id(init, w) is None {
            assert forall|j: int| 0 <= j < windows.len() implies windows[j] != w by {
                if j < init.len() {
                    assert(init[j] == windows[j]);
                }
            }
        }
    }
}

/// Among distinct windows, a window's position is its id.
pub proof fn lemma_window_id_unique(windows: Seq<Seq<char>>, i: int)
    requires
        windows_distinct(windows),
        0 <= i < windows.len(),
    ensures
        window_id(windows, windows[i]) == Some(i),
{
    lemma_window_id(windows, windows[i]);
}

/// The windows after `w` was looked up: it is added behind the others if
/// it was not known.
pub open spec fn learn(windows: Seq<Seq<char>>, w: Seq<char>) -> Seq<Seq<char>> {
    if window_id(windows, w) is Some {
        windows
    } else {
        windows.push(w)
    }
}

/// The id that `w` has once it was looked up.
pub open spec fn id_after(windows: Seq<Seq<char>>, w: Seq<char>) -> int {
    match window_id(windows, w) {
        Some(i) => i,
        None => windows.len() as int,
    }
}

/// Looking a window up keeps the windows distinct and every id as it was.
pub proof fn lemma_learn(windows: Seq<Seq<char>>, w: Seq<char>)
    requires
        windows_distinct(windows),
    ensures
        windows_distinct(learn(windows, w)),
        window_id(learn(windows, w), w) == Some(id_after(windows, w)),
        0 <= id_after(windows, w) < learn(windows, w).len(),
        windows.len() <= learn(windows, w).len() <= windows.len() + 1,
        forall|j: int| 0 <= j < windows.len() ==> learn(windows, w)[j] == windows[j],
        forall|v: Seq<char>| v != w ==> window_id(learn(windows, w), v) == window_id(windows, v),
{
    lemma_window_id(windows, w);
    let after = learn(windows, w);
    if window_id(windows, w) is None {
        assert(after.drop_last() =~= windows);
        assert(after.last() == w);
    }
}

/// How much a cell adds to the count of `row`, or to the count of all rows
/// where `row` is `None`.
pub open spec fn counted(t: Triple<ProbCell>, row: Option<usize>) -> nat {
    if row is None || row == Some(t.row) {
        t.value.count as nat
    } else {
        0
    }
}

/// The sum of the counts of one row, or of all rows where `row` is `None`.
pub open spec fn tally(s: Seq<Triple<ProbCell>>, row: Option<usize>) -> nat
    decreases s.len(),
{
    if s.len() == 0 {
        0
    } else {
        tally(s.drop_last(), row) + counted(s.last(), row)
    }
}

/// The sum of the counts of one row.
pub open spec fn row_total(s: Seq<Triple<ProbCell>>, row: usize) -> nat {
    tally(s, Some(row))
}

/// The sum of the counts of the cells of a row.
pub open spec fn count_sum(cells: Seq<(usize, ProbCell)>) -> nat
    decreases cells.len(),
{
    if cells.len() == 0 {
        0
    } else {
        count_sum(cells.drop_last()) + cells.last().1.count as nat
    }
}

/// The sum of the numerators of the probabilities of the cells of a row.
pub open spec fn numer_sum(cells: Seq<(usize, ProbCell)>) -> nat
    decreases cells.len(),
{
    if cells.len() == 0 {
        0
    } else {
        numer_sum(cells.drop_last()) + cells.last().1.prob.numer as nat
    }
}

/// A row's total is the sum over the cells that reading the row gives.
pub proof fn lemma_row_total_is_count_sum(s: Seq<Triple<ProbCell>>, row: usize)
    ensures
        row_total(s, row) == count_sum(row_of(s, row)),
    decreases s.len(),
{
    if s.len() > 0 {
        lemma_row_total_is_count_sum(s.drop_last(), row);
        if s.last().row == row {
            let cells = row_of(s, row);
            assert(cells.drop_last() =~= row_of(s.drop_last(), row));
        }
    }
}

/// No row counts more than all rows together.
pub proof fn lemma_tally_le_total(s: Seq<Triple<ProbCell>>, row: Option<usize>)
    ensures
        tally(s, row) <= tally(s, None),
    decreases s.len(),
{
    if s.len() > 0 {
        lemma_tally_le_total(s.drop_last(), row);
    }
}

/// Reading one more cell adds what it counts.
pub proof fn lemma_tally_step(s: Seq<Triple<ProbCell>>, row: Option<usize>, i: int)
    requires
        0 <= i < s.len(),
    ensures
        tally(s.take(i + 1), row) == tally(s.take(i), row) + counted(s[i], row),
        tally(s.take(i + 1), row) <= tally(s, row),
    decreases s.len() - i,
{
    assert(s.take(i + 1).drop_last() =~= s.take(i));
    if i + 1 < s.len() {
        lemma_tally_step(s, row, i + 1);
    } else {
        assert(s.take(i + 1) =~= s);
    }
}

/// Replacing a cell changes a sum by the difference of what the two count.
pub proof fn lemma_tally_update(
    s: Seq<Triple<ProbCell>>,
    i: int,
    t: Triple<ProbCell>,
    row: Option<usize>,
)
    requires
        0 <= i < s.len(),
    ensures
        tally(s.update(i, t), row) + counted(s[i], row) == tally(s, row) + counted(t, row),
    decreases s.len(),
{
    let r = s.update(i, t);
    if i == s.len() - 1 {
        assert(r.drop_last() =~= s.drop_last());
    } else {
        assert(r.drop_last() =~= s.drop_last().update(i, t));
        lemma_tally_update(s.drop_last(), i, t, row);
    }
}

/// A new cell adds what it counts.
pub proof fn lemma_tally_insert(
    s: Seq<Triple<ProbCell>>,
    p: int,
    t: Triple<ProbCell>,
    row: Option<usize>,
)
    requires
        0 <= p <= s.len(),
    ensures
        tally(s.insert(p, t), row) == tally(s, row) + counted(t, row),
    decreases s.len(),
{
    let r = s.insert(p, t);
    if p == s.len() {
        assert(r.drop_last() =~= s);
    } else {
        assert(r.drop_last() =~= s.drop_last().insert(p, t));
        lemma_tally_insert(s.drop_last(), p, t, row);
    }
}

/// Two sequences that agree in every row and count have the same sums.
pub proof fn lemma_tally_same_counts(
    a: Seq<Triple<ProbCell>>,
    b: Seq<Triple<ProbCell>>,
    row: Option<usize>,
)
    requires
        a.len() == b.len(),
        forall|i: int|
            0 <= i < a.len() ==> (#[trigger] a[i]).row == b[i].row && a[i].value.count
                == b[i].value.count,
    ensures
        tally(a, row) == tally(b, row),
    decreases a.len(),
{
    if a.len() > 0 {
        let a0 = a.drop_last();
        let b0 = b.drop_last();
        assert forall|i: int| 0 <= i < a0.len() implies (#[trigger] a0[i]).row == b0[i].row
            && a0[i].value.count == b0[i].value.count by {
            assert(a0[i] == a[i] && b0[i] == b[i]);
        }
        lemma_tally_same_counts(a0, b0, row);
        assert(a[a.len() - 1].row == b[a.len() - 1].row);
    }
}

/// The cell of a transition that was seen once more.
pub open spec fn bump(cell: Option<ProbCell>) -> ProbCell {
    match cell {
        Some(c) => ProbCell { prob: c.prob, count: (c.count + 1) as usize },
        None => ProbCell { prob: Probability { numer: 0, denom: 0 }, count: 1 },
    }
}

/// The chain after the window `src` was seen to be followed by `dst`: both
/// are looked up, `src` first, and the count of their transition grows by
/// one. Probabilities stay as they are.
pub open spec fn observe(m: ChainView, src: Seq<char>, dst: Seq<char>) -> ChainView {
    let known = learn(m.windows, src);
    let a = id_after(m.windows, src) as usize;
    let b = id_after(known, dst) as usize;
    ChainView {
        order: m.order,
        windows: learn(known, dst),
        cells: put_spec(m.cells, a, b, bump(lookup(m.cells, a, b))),
    }
}

/// The chain after the first `upto` pairs of adjacent windows of `text`
/// were seen, from left to right.
pub open spec fn train(m: ChainView, text: Seq<char>, upto: nat) -> ChainView
    decreases upto,
{
    if upto == 0 {
        m
    } else {
        let i = upto - 1;
        observe(
            train(m, text, i as nat),
            window_at(text, i, m.order),
            window_at(text, i + m.order, m.order),
        )
    }
}

/// Every cell holds the share of its count in the total of its row.
pub open spec fn normalized(cells: Seq<Triple<ProbCell>>) -> bool {
    forall|i: int|
        0 <= i < cells.len() ==> (#[trigger] cells[i]).value.prob == share(
            cells[i].value.count,
            row_total(cells, cells[i].row) as usize,
        )
}

/// The cells with every probability derived anew from the counts.
pub open spec fn normalize(cells: Seq<Triple<ProbCell>>) -> Seq<Triple<ProbCell>> {
    Seq::new(
        cells.len(),
        |i: int|
            Triple {
                row: cells[i].row,
                col: cells[i].col,
                value: ProbCell {
                    prob: share(cells[i].value.count, row_total(cells, cells[i].row) as usize),
                    count: cells[i].value.count,
                },
            },
    )
}

/// The cell joins two known windows of the given order and was seen at
/// least once.
pub open spec fn joins_known(windows: Seq<Seq<char>>, order: nat, t: Triple<ProbCell>) -> bool {
    &&& t.row < windows.len()
    &&& t.col < windows.len()
    &&& windows[t.row as int].len() == order
    &&& windows[t.col as int].len() == order
    &&& t.value.count >= 1
}

/// What holds of a chain at all times: windows are distinct, cells are
/// sorted by row with distinct positions, every cell joins two known
/// windows of the chain's order and was seen at least once, and all counts
/// together fit the machine's word.
pub open spec fn valid(m: ChainView) -> bool {
    &&& m.order > 0
    &&& windows_distinct(m.windows)
    &&& m.windows.len() <= usize::MAX
    &&& sorted_by_row(m.cells)
    &&& keys_distinct(m.cells)
    &&& forall|i: int|
        0 <= i < m.cells.len() ==> joins_known(m.windows, m.order, #[trigger] m.cells[i])
    &&& tally(m.cells, None) <= usize::MAX
}

/// No cell counts more than its row.
pub proof fn lemma_tally_member(s: Seq<Triple<ProbCell>>, row: Option<usize>, i: int)
    requires
        0 <= i < s.len(),
    ensures
        counted(s[i], row) <= tally(s, row),
{
    lemma_tally_step(s, row, i);
}

/// What a write does to the sum of a row, or of all rows: what the old
/// cell counted goes, what the new one counts comes.
pub proof fn lemma_tally_put(
    s: Seq<Triple<ProbCell>>,
    row: usize,
    col: usize,
    value: ProbCell,
    of: Option<usize>,
)
    requires
        sorted_by_row(s),
    ensures
        tally(put_spec(s, row, col, value), of) + (match lookup(s, row, col) {
            Some(was) => counted(Triple { row, col, value: was }, of),
            None => 0,
        }) == tally(s, of) + counted(Triple { row, col, value }, of),
{
    let t = Triple { row, col, value };
    lemma_key_index(s, row, col);
    match key_index(s, row, col) {
        Some(i) => {
            lemma_tally_update(s, i, t, of);
        },
        None => {
            lemma_insertion_point(s, row);
            lemma_tally_insert(s, insertion_point(s, row), t, of);
        },
    }
}

/// Looking up the two windows of an observation leaves them known under
/// the ids that the observation writes to, and moves no other window.
pub proof fn lemma_observe_windows(m: ChainView, src: Seq<char>, dst: Seq<char>)
    requires
        windows_distinct(m.windows),
    ensures
        ({
            let known = learn(m.windows, src);
            let after = learn(known, dst);
            let a = id_after(m.windows, src);
            let b = id_after(known, dst);
            &&& windows_distinct(after)
            &&& m.windows.len() <= after.len() <= m.windows.len() + 2
            &&& 0 <= a < after.len()
            &&& 0 <= b < after.len()
            &&& after[a] == src
            &&& after[b] == dst
            &&& forall|j: int| 0 <= j < m.windows.len() ==> after[j] == m.windows[j]
        }),
{
    let known = learn(m.windows, src);
    lemma_learn(m.windows, src);
    lemma_learn(known, dst);
    lemma_window_id(known, src);
    lemma_window_id(learn(known, dst), dst);
}

/// One observation keeps a chain valid, keeps the ids of the known
/// windows, and adds one to the total of the source's row and to the
/// total of all rows.
pub proof fn lemma_observe(m: ChainView, src: Seq<char>, dst: Seq<char>)
    requires
        valid(m),
        src.len() == m.order,
        dst.len() == m.order,
        tally(m.cells, None) < usize::MAX,
        observe(m, src, dst).windows.len() <= usize::MAX,
    ensures
        valid(observe(m, src, dst)),
        tally(observe(m, src, dst).cells, None) == tally(m.cells, None) + 1,
        forall|row: usize|
            row_total(observe(m, src, dst).cells, row) == row_total(m.cells, row) + if row
                == id_after(m.windows, src) {
                1nat
            } else {
                0nat
            },
        m.windows.len() <= observe(m, src, dst).windows.len(),
        forall|j: int| 0 <= j < m.windows.len() ==> observe(m, src, dst).windows[j] == m.windows[j],
{
    let after = observe(m, src, dst);
    lemma_observe_windows(m, src, dst);
    let a = id_after(m.windows, src) as usize;
    let b = id_after(learn(m.windows, src), dst) as usize;
    let cell = bump(lookup(m.cells, a, b));
    let s = m.cells;
    lemma_put_wf(s, a, b, cell);
    lemma_key_index(s, a, b);
    if let Some(i) = key_index(s, a, b) {
        lemma_tally_member(s, None, i);
    }
    assert(cell.count >= 1);
    let holds = |t: Triple<ProbCell>| joins_known(after.windows, m.order, t);
    assert forall|i: int| 0 <= i < s.len() implies holds(#[trigger] s[i]) by {
        assert(joins_known(m.windows, m.order, s[i]));
        assert(after.windows[s[i].row as int] == m.windows[s[i].row as int]);
        assert(after.windows[s[i].col as int] == m.windows[s[i].col as int]);
    }
    lemma_put_all(s, a, b, cell, holds);
    assert forall|j: int| 0 <= j < after.cells.len() implies joins_known(
        after.windows,
        after.order,
        #[trigger] after.cells[j],
    ) by {
        assert(holds(after.cells[j]));
    }
    lemma_tally_put(s, a, b, cell, None);
    assert forall|row: usize|
        row_total(after.cells, row) == row_total(s, row) + if row == id_after(m.windows, src) {
            1nat
        } else {
            0nat
        } by {
        lemma_tally_put(s, a, b, cell, Some(row));
    }
}

/// Reading one more cell of a row adds its count.
pub proof fn lemma_count_sum_step(cells: Seq<(usize, ProbCell)>, i: int)
    requires
        0 <= i < cells.len(),
    ensures
        count_sum(cells.take(i + 1)) == count_sum(cells.take(i)) + cells[i].1.count,
        count_sum(cells.take(i + 1)) <= count_sum(cells),
    decreases cells.len() - i,
{
    assert(cells.take(i + 1).drop_last() =~= cells.take(i));
    if i + 1 < cells.len() {
        lemma_count_sum_step(cells, i + 1);
    } else {
        assert(cells.take(i + 1) =~= cells);
    }
}

/// Two sequences hold the same cells with the same counts; their
/// probabilities may differ.
pub open spec fn same_counts(a: Seq<Triple<ProbCell>>, b: Seq<Triple<ProbCell>>) -> bool {
    &&& a.len() == b.len()
    &&& forall|i: int|
        0 <= i < a.len() ==> {
            &&& (#[trigger] a[i]).row == b[i].row
            &&& a[i].col == b[i].col
            &&& a[i].value.count == b[i].value.count
        }
}

/// A chain stays valid, and every total stays, when only probabilities change.
pub proof fn lemma_same_counts(m: ChainView, cells: Seq<Triple<ProbCell>>)
    requires
        valid(m),
        same_counts(m.cells, cells),
    ensures
        valid(ChainView { cells, ..m }),
        forall|row: Option<usize>| tally(cells, row) == tally(m.cells, row),
        forall|row: usize| row_total(cells, row) == row_total(m.cells, row),
{
    let a = m.cells;
    assert forall|row: Option<usize>| tally(cells, row) == tally(a, row) by {
        lemma_tally_same_counts(a, cells, row);
    }
    assert forall|x: int, y: int| 0 <= x < y < cells.len() implies (#[trigger] cells[x]).row <= (
    #[trigger] cells[y]).row by {
        assert(a[x].row <= a[y].row);
    }
    assert forall|x: int, y: int| 0 <= x < y < cells.len() implies !((#[trigger] cells[x]).row == (
    #[trigger] cells[y]).row && cells[x].col == cells[y].col) by {
        assert(!(a[x].row == a[y].row && a[x].col == a[y].col));
    }
    assert forall|i: int| 0 <= i < cells.len() implies joins_known(
        m.windows,
        m.order,
        #[trigger] cells[i],
    ) by {
        assert(joins_known(m.windows, m.order, a[i]));
    }
}

/// Normalising keeps a valid chain valid, changes no count, and leaves
/// every cell with the share of its count in its row.
pub proof fn lemma_normalize(m: ChainView)
    requires
        valid(m),
    ensures
        same_counts(m.cells, normalize(m.cells)),
        valid(ChainView { cells: normalize(m.cells), ..m }),
        normalized(normalize(m.cells)),
{
    let cells = normalize(m.cells);
    lemma_same_counts(m, cells);
    assert forall|i: int| 0 <= i < cells.len() implies (#[trigger] cells[i]).value.prob == share(
        cells[i].value.count,
        row_total(cells, cells[i].row) as usize,
    ) by {
        assert(row_total(cells, cells[i].row) == row_total(m.cells, m.cells[i].row));
    }
}

/// The number of pairs of adjacent windows in a text of `len` symbols.
pub open spec fn pair_total(len: nat, order: nat) -> nat {
    if len < 2 * order {
        0
    } else {
        (len - 2 * order + 1) as nat
    }
}

/// The chain after it has learned `text`: every pair of adjacent windows
/// is observed, then every probability is derived anew.
pub open spec fn fit_spec(m: ChainView, text: Seq<char>) -> ChainView {
    let seen = train(m, text, pair_total(text.len(), m.order));
    ChainView { cells: normalize(seen.cells), ..seen }
}

} // verus!
