//! A character-level n-gram Markov chain: it counts how often one window of
//! symbols follows another in training text and samples new text by walking
//! the resulting chain.

pub mod cell;
pub mod chain;
pub mod errors;
pub mod laws;
pub mod prelude;
pub mod source;
pub mod sparse;
pub mod text;
pub mod walk;

use crate::cell::{share, with_share, ProbCell, Probability};
use crate::chain::{
    count_sum, fit_spec, id_after, learn, lemma_count_sum_step, lemma_learn, lemma_normalize,
    lemma_observe, lemma_row_total_is_count_sum, lemma_same_counts, lemma_tally_le_total,
    lemma_tally_member, lemma_tally_step, lemma_window_id, lemma_window_id_unique, normalize,
    normalized, numer_sum, observe, pair_total, row_total, same_counts, tally, train, valid,
    window_at, ChainView,
};
use crate::errors::{GenerationError, TrainingError};
use crate::laws::{count_of, lemma_fit_counts, lemma_rows_sum_to_one, pair_count, sums_to_one};
use crate::source::RandomSource;
use crate::sparse::{key_index, lemma_key_index, row_of, SparseMatrix, Triple};
use crate::text::{symbols, window};
use crate::walk::{
    continues, finished, generated, lemma_numer_sum_step, lemma_pick, lemma_row_facts,
    lemma_walk_begins, lemma_walk_complete, lemma_walk_step, lemma_walk_targets, pick, pick_from,
    reaches,
};
use vstd::prelude::*;
use vstd::string::{StrSliceExecFns, StringExecFns};

verus! {

/// A Markov chain over windows of `ngram` symbols, with the source of
/// random numbers that it generates from.
pub struct MarkovLanguageGenerator {
    grams: Vec<String>,
    mat: SparseMatrix<ProbCell>,
    rng: RandomSource,
    ngram: usize,
}

impl View for MarkovLanguageGenerator {
    type V = ChainView;

    closed spec fn view(&self) -> ChainView {
        ChainView {
            order: self.ngram as nat,
            windows: Seq::new(self.grams@.len(), |i: int| self.grams@[i]@),
            cells: self.mat@,
        }
    }
}

impl MarkovLanguageGenerator {
    /// The chain is valid and its probabilities follow from its counts.
    pub open spec fn wf(&self) -> bool {
        valid(self@) && normalized(self@.cells)
    }

    /// The chain draws from a generator that a seed fixes, not from the
    /// generator of the thread.
    pub closed spec fn seeded(&self) -> bool {
        self.rng is Seeded
    }

    /// An untrained chain of the given order that draws from the
    /// generator of the current thread.
    pub fn new(ngram: usize) -> (g: MarkovLanguageGenerator)
        requires
            ngram > 0,
        ensures
            g.wf(),
            !g.seeded(),
            g@ == (ChainView {
                order: ngram as nat,
                windows: Seq::<Seq<char>>::empty(),
                cells: Seq::<Triple<ProbCell>>::empty(),
            }),
    {
        let g = MarkovLanguageGenerator {
            grams: Vec::new(),
            mat: SparseMatrix::new(),
            rng: RandomSource::thread(),
            ngram,
        };
        assert(g@.windows =~= Seq::<Seq<char>>::empty());
        g
    }

    /// An untrained chain of the given order that draws from a generator
    /// which `seed` fixes.
    pub fn with_seed(ngram: usize, seed: u64) -> (g: MarkovLanguageGenerator)
        requires
            ngram > 0,
        ensures
            g.wf(),
            g.seeded(),
            g@ == (ChainView {
                order: ngram as nat,
                windows: Seq::<Seq<char>>::empty(),
                cells: Seq::<Triple<ProbCell>>::empty(),
            }),
    {
        let g = MarkovLanguageGenerator {
            grams: Vec::new(),
            mat: SparseMatrix::new(),
            rng: RandomSource::seeded(seed),
            ngram,
        };
        assert(g@.windows =~= Seq::<Seq<char>>::empty());
        g
    }

    /// The number of symbols in a window.
    pub fn order(&self) -> (k: usize)
        ensures
            k == self@.order,
    {
        self.ngram
    }

    /// The number of known windows.
    pub fn window_count(&self) -> (n: usize)
        ensures
            n == self@.windows.len(),
    {
        self.grams.len()
    }

    /// The window with the given id.
    pub fn window_for(&self, id: usize) -> (w: &String)
        requires
            id < self@.windows.len(),
        ensures
            w@ == self@.windows[id as int],
    {
        &self.grams[id]
    }

    /// The stored transitions.
    pub fn matrix(&self) -> (m: &SparseMatrix<ProbCell>)
        ensures
            m@ == self@.cells,
    {
        &self.mat
    }

    /// The id of the window `c`, which is added behind the known windows
    /// if it is new. Known windows keep their ids, and no transition
    /// changes.
    pub fn get_or_insert_ngram_index(&mut self, c: String) -> (id: usize)
        requires
            valid(old(self)@),
        ensures
            id == id_after(old(self)@.windows, c@),
            final(self)@ == (ChainView {
                windows: learn(old(self)@.windows, c@),
                ..old(self)@
            }),
            valid(final(self)@),
            final(self).seeded() == old(self).seeded(),
    {
        let ghost windows = self@.windows;
        let mut i: usize = 0;
        while i < self.grams.len()
            invariant
                *self == *old(self),
                windows == self@.windows,
                valid(self@),
                i <= self.grams.len(),
                forall|j: int| 0 <= j < i ==> windows[j] != c@,
            decreases self.grams.len() - i,
        {
            if self.grams[i] == c {
                proof {
                    assert(windows[i as int] == c@);
                    lemma_window_id_unique(windows, i as int);
                }
                return i;
            }
            i += 1;
        }
        proof {
            lemma_window_id(windows, c@);
            lemma_learn(windows, c@);
        }
        self.grams.push(c);
        assert(self@.windows =~= windows.push(c@));
        self.grams.len() - 1
    }

    /// The number of transitions that the chain has counted so far.
    pub fn observed(&self) -> (total: usize)
        requires
            valid(self@),
        ensures
            total == tally(self@.cells, None),
    {
        let n = self.mat.len();
        let mut total: usize = 0;
        let mut i: usize = 0;
        while i < n
            invariant
                i <= n,
                n == self@.cells.len(),
                total == tally(self@.cells.take(i as int), None),
                tally(self@.cells, None) <= usize::MAX,
            decreases n - i,
        {
            proof {
                lemma_tally_step(self@.cells, None, i as int);
            }
            total = total + self.mat.triple(i).value.count;
            i += 1;
        }
        assert(self@.cells.take(i as int) =~= self@.cells);
        total
    }

    /// The sum of the counts of the transitions that leave the window `row`.
    pub fn row_total(&self, row: usize) -> (total: usize)
        requires
            valid(self@),
        ensures
            total == row_total(self@.cells, row),
    {
        let cells = self.mat.row_cells(row);
        proof {
            lemma_row_total_is_count_sum(self@.cells, row);
            lemma_tally_le_total(self@.cells, Some(row));
        }
        let mut total: usize = 0;
        let mut i: usize = 0;
        while i < cells.len()
            invariant
                i <= cells.len(),
                total == count_sum(cells@.take(i as int)),
                count_sum(cells@) <= usize::MAX,
            decreases cells.len() - i,
        {
            proof {
                lemma_count_sum_step(cells@, i as int);
            }
            total = total + cells[i].1.count;
            i += 1;
        }
        assert(cells@.take(i as int) =~= cells@);
        total
    }

    /// Derives every probability anew: each cell gets the share of its
    /// count in the total of its row. No count changes.
    pub fn adjust_probs(&mut self)
        requires
            valid(old(self)@),
        ensures
            final(self)@ == (ChainView { cells: normalize(old(self)@.cells), ..old(self)@ }),
            final(self).wf(),
            final(self).seeded() == old(self).seeded(),
            forall|row: usize|
                row_of(final(self)@.cells, row).len() > 0 ==> sums_to_one(
                    #[trigger] row_of(final(self)@.cells, row),
                ),
    {
        let ghost start = self@;
        let n = self.grams.len();
        let mut r: usize = 0;
        while r < n
            invariant
                r <= n,
                n == start.windows.len(),
                valid(start),
                self.seeded() == old(self).seeded(),
                self@.order == start.order,
                self@.windows == start.windows,
                same_counts(start.cells, self@.cells),
                forall|i: int|
                    0 <= i < start.cells.len() ==> (#[trigger] self@.cells[i]).value.prob == if
                        start.cells[i].row < r {
                        share(
                            start.cells[i].value.count,
                            row_total(start.cells, start.cells[i].row) as usize,
                        )
                    } else {
                        start.cells[i].value.prob
                    },
            decreases n - r,
        {
            proof {
                lemma_same_counts(start, self@.cells);
            }
            let total = self.row_total(r);
            let ghost before = self@.cells;
            let rescale = |cell: ProbCell| -> (out: ProbCell)
                ensures
                    out == with_share(cell, total),
                { cell.rescaled(total) };
            self.mat.row_for_each(r, rescale);
            proof {
                let after = self@.cells;
                assert forall|i: int| 0 <= i < start.cells.len() implies {
                    &&& (#[trigger] start.cells[i]).row == after[i].row
                    &&& start.cells[i].col == after[i].col
                    &&& start.cells[i].value.count == after[i].value.count
                } by {
                    assert(after[i].row == before[i].row);
                }
                assert forall|i: int| 0 <= i < start.cells.len() implies (
                #[trigger] after[i]).value.prob == if start.cells[i].row < r + 1 {
                    share(
                        start.cells[i].value.count,
                        row_total(start.cells, start.cells[i].row) as usize,
                    )
                } else {
                    start.cells[i].value.prob
                } by {
                    assert(after[i].row == before[i].row);
                    assert(before[i].row == start.cells[i].row);
                }
            }
            r += 1;
        }
        proof {
            lemma_normalize(start);
            assert forall|row: usize|
                row_of(normalize(start.cells), row).len() > 0 implies sums_to_one(
                #[trigger] row_of(normalize(start.cells), row),
            ) by {
                lemma_rows_sum_to_one(ChainView { cells: normalize(start.cells), ..start }, row);
            }
            assert(self@.cells =~= normalize(start.cells)) by {
                assert forall|i: int| 0 <= i < start.cells.len() implies self@.cells[i]
                    == normalize(start.cells)[i] by {
                    assert(start.cells[i].row < n);
                    assert(self@.cells[i].row == start.cells[i].row);
                }
            }
        }
    }

    /// Learns `s`: see [`MarkovLanguageGenerator::fit`].
    pub fn fit_str(&mut self, s: &str) -> (r: Result<(), TrainingError>)
        requires
            old(self).wf(),
            tally(old(self)@.cells, None) + pair_total(s@.len(), old(self)@.order) <= usize::MAX,
        ensures
            final(self).wf(),
            final(self).seeded() == old(self).seeded(),
            old(self)@.windows.len() <= final(self)@.windows.len(),
            forall|j: int|
                0 <= j < old(self)@.windows.len() ==> final(self)@.windows[j] == old(
                    self,
                )@.windows[j],
            forall|row: usize|
                row_of(final(self)@.cells, row).len() > 0 ==> sums_to_one(
                    #[trigger] row_of(final(self)@.cells, row),
                ),
            s@.len() < 2 * old(self)@.order ==> ({
                &&& r == Err::<(), TrainingError>(TrainingError::TooShort)
                &&& final(self)@ == old(self)@
            }),
            s@.len() >= 2 * old(self)@.order ==> ({
                &&& r == Ok::<(), TrainingError>(())
                &&& final(self)@ == fit_spec(old(self)@, s@)
                &&& final(self)@.windows.len() > 0
            }),
            forall|src: Seq<char>, dst: Seq<char>|
                #[trigger] count_of(final(self)@, src, dst) == count_of(old(self)@, src, dst)
                    + pair_count(
                    s@,
                    old(self)@.order,
                    pair_total(s@.len(), old(self)@.order),
                    src,
                    dst,
                ),
    {
        self.fit(&s.to_owned())
    }

    /// Learns `s`. A text of fewer symbols than two windows is refused and
    /// changes nothing. Otherwise every pair of adjacent windows is
    /// observed from left to right, on top of what the chain has counted
    /// before, and all probabilities are derived anew.
    pub fn fit(&mut self, s: &String) -> (r: Result<(), TrainingError>)
        requires
            old(self).wf(),
            tally(old(self)@.cells, None) + pair_total(s@.len(), old(self)@.order) <= usize::MAX,
        ensures
            final(self).wf(),
            final(self).seeded() == old(self).seeded(),
            old(self)@.windows.len() <= final(self)@.windows.len(),
            forall|j: int|
                0 <= j < old(self)@.windows.len() ==> final(self)@.windows[j] == old(
                    self,
                )@.windows[j],
            forall|row: usize|
                row_of(final(self)@.cells, row).len() > 0 ==> sums_to_one(
                    #[trigger] row_of(final(self)@.cells, row),
                ),
            s@.len() < 2 * old(self)@.order ==> ({
                &&& r == Err::<(), TrainingError>(TrainingError::TooShort)
                &&& final(self)@ == old(self)@
            }),
            s@.len() >= 2 * old(self)@.order ==> ({
                &&& r == Ok::<(), TrainingError>(())
                &&& final(self)@ == fit_spec(old(self)@, s@)
                &&& final(self)@.windows.len() > 0
            }),
            forall|src: Seq<char>, dst: Seq<char>|
                #[trigger] count_of(final(self)@, src, dst) == count_of(old(self)@, src, dst)
                    + pair_count(
                    s@,
                    old(self)@.order,
                    pair_total(s@.len(), old(self)@.order),
                    src,
                    dst,
                ),
    {
        let chars = symbols(s.as_str());
        let n = chars.len();
        let k = self.ngram;
        if n < k || n - k < k {
            proof {
                assert forall|row: usize| row_of(self@.cells, row).len() > 0 implies sums_to_one(
                    #[trigger] row_of(self@.cells, row),
                ) by {
                    lemma_rows_sum_to_one(self@, row);
                }
            }
            assert(pair_total(chars@.len(), k as nat) == 0);
            assert forall|src: Seq<char>, dst: Seq<char>|
                pair_count(chars@, k as nat, 0, src, dst) == 0 by {}
            return Err(TrainingError::TooShort);
        }
        let last = n - k - k;
        let ghost start = self@;
        let mut i: usize = 0;
        while i <= last
            invariant
                i <= last + 1,
                last == n - 2 * k,
                k == start.order,
                k > 0,
                n == chars@.len(),
                valid(start),
                tally(start.cells, None) + last + 1 <= usize::MAX,
                self@ == train(start, chars@, i as nat),
                self.seeded() == old(self).seeded(),
                self@.order == k,
                valid(self@),
                tally(self@.cells, None) == tally(start.cells, None) + i,
                i > 0 ==> self@.windows.len() > 0,
                start.windows.len() <= self@.windows.len(),
                forall|j: int|
                    0 <= j < start.windows.len() ==> self@.windows[j] == start.windows[j],
            decreases last + 1 - i,
        {
            let ghost before = self@;
            let ghost src = window_at(chars@, i as int, k as nat);
            let ghost dst = window_at(chars@, i + k, k as nat);
            let gram1 = window(&chars, i, k);
            let gram2 = window(&chars, i + k, k);
            let a = self.get_or_insert_ngram_index(gram1);
            let b = self.get_or_insert_ngram_index(gram2);
            proof {
                lemma_observe(before, src, dst);
                lemma_key_index(before.cells, a, b);
            }
            match self.mat.get(a, b) {
                Some(cell) => {
                    proof {
                        let at = key_index(before.cells, a, b)->0;
                        lemma_tally_member(before.cells, None, at);
                    }
                    self.mat.put(a, b, ProbCell { prob: cell.prob, count: cell.count + 1 });
                },
                None => {
                    self.mat.put(a, b, ProbCell { prob: Probability::zero(), count: 1 });
                },
            }
            assert(self@ == observe(before, src, dst));
            i += 1;
        }
        self.adjust_probs();
        proof {
            assert forall|src: Seq<char>, dst: Seq<char>|
                #[trigger] count_of(self@, src, dst) == count_of(start, src, dst) + pair_count(
                    chars@,
                    start.order,
                    pair_total(chars@.len(), start.order),
                    src,
                    dst,
                ) by {
                lemma_fit_counts(start, chars@, src, dst);
            }
        }
        Ok(())
    }

    /// Learns `s` if the counts that this leads to fit the machine's word,
    /// and says `None`, with the chain unchanged, if they do not.
    pub fn try_fit(&mut self, s: &String) -> (r: Option<Result<(), TrainingError>>)
        requires
            old(self).wf(),
        ensures
            final(self).wf(),
            final(self).seeded() == old(self).seeded(),
            tally(old(self)@.cells, None) + pair_total(s@.len(), old(self)@.order) > usize::MAX
                ==> r is None && final(self)@ == old(self)@,
            tally(old(self)@.cells, None) + pair_total(s@.len(), old(self)@.order) <= usize::MAX
                ==> if s@.len() < 2 * old(self)@.order {
                r == Some(Err::<(), TrainingError>(TrainingError::TooShort)) && final(self)@
                    == old(self)@
            } else {
                r == Some(Ok::<(), TrainingError>(())) && final(self)@ == fit_spec(old(self)@, s@)
            },
    {
        let n = s.as_str().unicode_len();
        let k = self.ngram;
        if n >= k && n - k >= k {
            let pairs = n - k - k + 1;
            if pairs > usize::MAX - self.observed() {
                return None;
            }
        }
        Some(self.fit(s))
    }

    /// The window that follows `current` under `target`, or `None` at a
    /// dead end.
    pub fn next_window(&self, current: usize, target: u32) -> (next: Option<usize>)
        requires
            self.wf(),
        ensures
            next == pick(row_of(self@.cells, current), target),
    {
        let cells = self.mat.row_cells(current);
        proof {
            lemma_row_facts(self@, current);
        }
        let mut cum: usize = 0;
        let mut j: usize = 0;
        while j < cells.len()
            invariant
                j <= cells.len(),
                cells@ == row_of(self@.cells, current),
                cum == numer_sum(cells@.take(j as int)),
                numer_sum(cells@) <= usize::MAX,
                pick(cells@, target) == pick_from(cells@, target, j as int),
            decreases cells.len() - j,
        {
            proof {
                lemma_numer_sum_step(cells@, j as int);
            }
            cum = cum + cells[j].1.prob.numer;
            if reaches(cum, cells[j].1.prob.denom, target) {
                return Some(cells[j].0);
            }
            j += 1;
        }
        None
    }

    /// Generates `len` symbols: from a window chosen at random the chain
    /// is walked, each step appending the current window and drawing a
    /// target that picks the next one. The text is cut at `len` symbols,
    /// and is shorter only if the walk met a window that no transition
    /// leaves. The chain itself does not change.
    pub fn gen(&mut self, len: usize) -> (r: Result<String, GenerationError>)
        requires
            old(self).wf(),
        ensures
            final(self)@ == old(self)@,
            final(self).seeded() == old(self).seeded(),
            old(self)@.windows.len() == 0 ==> r == Err::<String, GenerationError>(
                GenerationError::EmptyModel,
            ),
            old(self)@.windows.len() > 0 ==> ({
                &&& r is Ok
                &&& r->Ok_0@.len() <= len
                &&& generated(old(self)@, len as nat, r->Ok_0@)
            }),
    {
        let n = self.grams.len();
        if n == 0 {
            return Err(GenerationError::EmptyModel);
        }
        let first = self.rng.next_u64();
        let start: usize = (first % (n as u64)) as usize;
        let ghost m = self@;
        let ghost mut used: Seq<u32> = Seq::empty();
        let mut current: usize = start;
        let mut buf = String::new();
        let mut out_len: usize = 0;
        let mut stalled = false;
        proof {
            lemma_walk_begins(m, len as nat, start as int);
            if len == 0 {
                lemma_walk_complete(m, 0, start as int, used, buf@, start as int);
            }
        }
        while out_len < len && !stalled
            invariant
                self@ == m,
                self.wf(),
                self.seeded() == old(self).seeded(),
                n == m.windows.len(),
                start < n,
                current < n,
                out_len == buf@.len(),
                out_len <= len,
                used.len() <= len,
                !stalled ==> used.len() <= out_len,
                out_len < len && !stalled ==> continues(
                    m,
                    len as nat,
                    start as int,
                    used,
                    buf@,
                    current as int,
                ),
                out_len == len ==> !stalled && finished(
                    m,
                    len as nat,
                    start as int,
                    used,
                    buf@,
                    false,
                ),
                stalled ==> out_len < len && finished(
                    m,
                    len as nat,
                    start as int,
                    used,
                    buf@,
                    true,
                ),
            decreases len - out_len, if stalled { 0int } else { 1int },
        {
            let target = self.rng.next_u32();
            let rem = len - out_len;
            let size = self.grams[current].as_str().unicode_len();
            proof {
                lemma_walk_step(m, len as nat, start as int, used, buf@, current as int, target);
                lemma_pick(m, current, target);
                used = used.push(target);
            }
            if size >= rem {
                let part = self.grams[current].as_str().substring_char(0, rem);
                assert(part@ =~= m.windows[current as int].take(rem as int));
                buf.append(part);
                out_len = len;
            } else {
                buf.append(self.grams[current].as_str());
                out_len = out_len + size;
                match self.next_window(current, target) {
                    Some(next) => {
                        current = next;
                    },
                    None => {
                        stalled = true;
                    },
                }
            }
        }
        proof {
            lemma_walk_targets(m, len as nat, start as int, used, buf@, stalled, len as nat);
        }
        Ok(buf)
    }
}

} // verus!
