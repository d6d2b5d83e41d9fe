//! A sparse matrix that stores only the cells that were written, kept sorted
//! by row so that a row can be read as one contiguous run.

use vstd::prelude::*;

verus! {

/// One stored cell together with its position.
pub struct Triple<T> {
    pub row: usize,
    pub col: usize,
    pub value: T,
}

/// The position of the cell `(row, col)` in `s`, if it is stored.
pub open spec fn key_index<T>(s: Seq<Triple<T>>, row: usize, col: usize) -> Option<int>
    decreases s.len(),
{
    if s.len() == 0 {
        None
    } else if s.last().row == row && s.last().col == col {
        Some(s.len() - 1)
    } else {
        key_index(s.drop_last(), row, col)
    }
}

/// The value stored at `(row, col)`, if any.
pub open spec fn lookup<T>(s: Seq<Triple<T>>, row: usize, col: usize) -> Option<T> {
    match key_index(s, row, col) {
        Some(i) => Some(s[i].value),
        None => None,
    }
}

/// Rows never decrease along the sequence.
pub open spec fn sorted_by_row<T>(s: Seq<Triple<T>>) -> bool {
    forall|i: int, j: int| 0 <= i < j < s.len() ==> (#[trigger] s[i]).row <= (#[trigger] s[j]).row
}

/// No position `(row, col)` is stored twice.
pub open spec fn keys_distinct<T>(s: Seq<Triple<T>>) -> bool {
    forall|i: int, j: int|
        0 <= i < j < s.len() ==> !((#[trigger] s[i]).row == (#[trigger] s[j]).row && s[i].col
            == s[j].col)
}

/// `key_index` finds a position that holds the key, and finds one whenever
/// the key is stored.
pub proof fn lemma_key_index<T>(s: Seq<Triple<T>>, row: usize, col: usize)
    ensures
        match key_index(s, row, col) {
            Some(i) => 0 <= i < s.len() && s[i].row == row && s[i].col == col,
            None => forall|j: int|
                0 <= j < s.len() ==> !((#[trigger] s[j]).row == row && s[j].col == col),
        },
    decreases s.len(),
{
    if s.len() > 0 {
        let init = s.drop_last();
        lemma_key_index(init, row, col);
        if !(s.last().row == row && s.last().col == col) {
            if key_index(init, row, col) is None {
                assert forall|j: int| 0 <= j < s.len() implies !((#[trigger] s[j]).row == row
                    && s[j].col == col) by {
                    if j < init.len() {
                        assert(init[j] == s[j]);
                    }
                }
            }
        }
    }
}

/// With distinct keys, the position that holds a key is the one `key_index` finds.
pub proof fn lemma_key_index_unique<T>(s: Seq<Triple<T>>, i: int)
    requires
        keys_distinct(s),
        0 <= i < s.len(),
    ensures
        key_index(s, s[i].row, s[i].col) == Some(i),
{
    lemma_key_index(s, s[i].row, s[i].col);
}

/// Where a new cell of row `row` goes: behind the last cell whose row is not greater.
pub open spec fn insertion_point<T>(s: Seq<Triple<T>>, row: usize) -> int
    decreases s.len(),
{
    if s.len() == 0 {
        0
    } else if s.last().row <= row {
        s.len() as int
    } else {
        insertion_point(s.drop_last(), row)
    }
}

/// The stored cells after `value` is written at `(row, col)`: an existing
/// cell keeps its place, a new one goes to the end of its row.
pub open spec fn put_spec<T>(s: Seq<Triple<T>>, row: usize, col: usize, value: T) -> Seq<Triple<T>> {
    let t = Triple { row, col, value };
    match key_index(s, row, col) {
        Some(i) => s.update(i, t),
        None => s.insert(insertion_point(s, row), t),
    }
}

/// The cells of one row, as `(col, value)`, in stored order.
pub open spec fn row_of<T>(s: Seq<Triple<T>>, row: usize) -> Seq<(usize, T)>
    decreases s.len(),
{
    if s.len() == 0 {
        Seq::empty()
    } else if s.last().row == row {
        row_of(s.drop_last(), row).push((s.last().col, s.last().value))
    } else {
        row_of(s.drop_last(), row)
    }
}

/// In a sorted sequence the insertion point splits the rows not greater
/// than `row` from the greater ones.
pub proof fn lemma_insertion_point<T>(s: Seq<Triple<T>>, row: usize)
    requires
        sorted_by_row(s),
    ensures
        0 <= insertion_point(s, row) <= s.len(),
        forall|j: int| 0 <= j < insertion_point(s, row) ==> (#[trigger] s[j]).row <= row,
        forall|j: int| insertion_point(s, row) <= j < s.len() ==> (#[trigger] s[j]).row > row,
    decreases s.len(),
{
    if s.len() > 0 {
        let init = s.drop_last();
        assert forall|i: int, j: int| 0 <= i < j < init.len() implies (#[trigger] init[i]).row <= (
        #[trigger] init[j]).row by {
            assert(init[i] == s[i] && init[j] == s[j]);
        }
        if s.last().row <= row {
            assert forall|j: int| 0 <= j < s.len() implies (#[trigger] s[j]).row <= row by {
                if j < s.len() - 1 {
                    assert(s[j].row <= s[s.len() - 1].row);
                }
            }
        } else {
            lemma_insertion_point(init, row);
            let p = insertion_point(init, row);
            assert forall|j: int| 0 <= j < p implies (#[trigger] s[j]).row <= row by {
                assert(init[j] == s[j]);
            }
            assert forall|j: int| p <= j < s.len() implies (#[trigger] s[j]).row > row by {
                if j < init.len() {
                    assert(init[j] == s[j]);
                }
            }
        }
    }
}

/// A split point of a sorted sequence is its insertion point.
pub proof fn lemma_insertion_point_unique<T>(s: Seq<Triple<T>>, row: usize, p: int)
    requires
        sorted_by_row(s),
        0 <= p <= s.len(),
        forall|j: int| 0 <= j < p ==> (#[trigger] s[j]).row <= row,
        forall|j: int| p <= j < s.len() ==> (#[trigger] s[j]).row > row,
    ensures
        insertion_point(s, row) == p,
{
    lemma_insertion_point(s, row);
    let q = insertion_point(s, row);
    if q < p {
        assert(s[q].row > row);
    } else if p < q {
        assert(s[p].row > row);
    }
}

/// Writing a cell keeps the matrix sorted and its keys distinct.
pub proof fn lemma_put_wf<T>(s: Seq<Triple<T>>, row: usize, col: usize, value: T)
    requires
        sorted_by_row(s),
        keys_distinct(s),
    ensures
        sorted_by_row(put_spec(s, row, col, value)),
        keys_distinct(put_spec(s, row, col, value)),
{
    let t = Triple { row, col, value };
    let r = put_spec(s, row, col, value);
    lemma_key_index(s, row, col);
    match key_index(s, row, col) {
        Some(i) => {
            assert forall|a: int, b: int| 0 <= a < b < r.len() implies (#[trigger] r[a]).row <= (
            #[trigger] r[b]).row by {
                assert(r[a].row == s[a].row && r[b].row == s[b].row);
            }
            assert forall|a: int, b: int| 0 <= a < b < r.len() implies !((#[trigger] r[a]).row == (
            #[trigger] r[b]).row && r[a].col == r[b].col) by {
                assert(r[a].row == s[a].row && r[b].row == s[b].row);
                assert(r[a].col == s[a].col && r[b].col == s[b].col);
            }
        },
        None => {
            lemma_insertion_point(s, row);
            let p = insertion_point(s, row);
            assert forall|a: int, b: int| 0 <= a < b < r.len() implies (#[trigger] r[a]).row <= (
            #[trigger] r[b]).row by {
                let sa = if a < p { a } else { a - 1 };
                let sb = if b < p { b } else { b - 1 };
                if a != p {
                    assert(r[a] == s[sa]);
                }
                if b != p {
                    assert(r[b] == s[sb]);
                }
            }
            assert forall|a: int, b: int| 0 <= a < b < r.len() implies !((#[trigger] r[a]).row == (
            #[trigger] r[b]).row && r[a].col == r[b].col) by {
                let sa = if a < p { a } else { a - 1 };
                let sb = if b < p { b } else { b - 1 };
                if a != p {
                    assert(r[a] == s[sa]);
                }
                if b != p {
                    assert(r[b] == s[sb]);
                }
            }
        },
    }
}

/// What holds of every stored cell and of a written one holds of every
/// cell after the write.
pub proof fn lemma_put_all<T>(
    s: Seq<Triple<T>>,
    row: usize,
    col: usize,
    value: T,
    holds: spec_fn(Triple<T>) -> bool,
)
    requires
        sorted_by_row(s),
        forall|i: int| 0 <= i < s.len() ==> holds(#[trigger] s[i]),
        holds(Triple { row, col, value }),
    ensures
        forall|j: int|
            0 <= j < put_spec(s, row, col, value).len() ==> holds(
                #[trigger] put_spec(s, row, col, value)[j],
            ),
{
    let r = put_spec(s, row, col, value);
    lemma_key_index(s, row, col);
    match key_index(s, row, col) {
        Some(i) => {
            assert forall|j: int| 0 <= j < r.len() implies holds(#[trigger] r[j]) by {
                if j != i {
                    assert(r[j] == s[j]);
                }
            }
        },
        None => {
            lemma_insertion_point(s, row);
            let p = insertion_point(s, row);
            assert forall|j: int| 0 <= j < r.len() implies holds(#[trigger] r[j]) by {
                if j < p {
                    assert(r[j] == s[j]);
                } else if j > p {
                    assert(r[j] == s[j - 1]);
                }
            }
        },
    }
}

/// After a write the written position holds the new value and every other
/// position reads as before.
pub proof fn lemma_put_lookup<T>(
    s: Seq<Triple<T>>,
    row: usize,
    col: usize,
    value: T,
    row2: usize,
    col2: usize,
)
    requires
        sorted_by_row(s),
        keys_distinct(s),
    ensures
        lookup(put_spec(s, row, col, value), row2, col2) == if row2 == row && col2 == col {
            Some(value)
        } else {
            lookup(s, row2, col2)
        },
{
    let t = Triple { row, col, value };
    let r = put_spec(s, row, col, value);
    lemma_put_wf(s, row, col, value);
    lemma_key_index(s, row, col);
    lemma_key_index(s, row2, col2);
    lemma_key_index(r, row2, col2);
    match key_index(s, row, col) {
        Some(i) => {
            assert(r[i] == t);
            if row2 == row && col2 == col {
                lemma_key_index_unique(r, i);
            } else {
                match key_index(s, row2, col2) {
                    Some(j) => {
                        assert(r[j] == s[j]);
                        lemma_key_index_unique(r, j);
                    },
                    None => {
                        if let Some(j) = key_index(r, row2, col2) {
                            assert(r[j].row == s[j].row && r[j].col == s[j].col);
                        }
                    },
                }
            }
        },
        None => {
            lemma_insertion_point(s, row);
            let p = insertion_point(s, row);
            assert(r[p] == t);
            if row2 == row && col2 == col {
                lemma_key_index_unique(r, p);
            } else {
                match key_index(s, row2, col2) {
                    Some(j) => {
                        let k = if j < p { j } else { j + 1 };
                        assert(r[k] == s[j]);
                        lemma_key_index_unique(r, k);
                    },
                    None => {
                        if let Some(k) = key_index(r, row2, col2) {
                            let j = if k < p { k } else { k - 1 };
                            assert(r[k] == s[j]);
                        }
                    },
                }
            }
        },
    }
}

/// Reading one more cell extends the row by that cell if it belongs to it.
pub proof fn lemma_row_of_step<T>(s: Seq<Triple<T>>, row: usize, i: int)
    requires
        0 <= i < s.len(),
    ensures
        row_of(s.take(i + 1), row) == if s[i].row == row {
            row_of(s.take(i), row).push((s[i].col, s[i].value))
        } else {
            row_of(s.take(i), row)
        },
{
    assert(s.take(i + 1).drop_last() =~= s.take(i));
}

/// In a sorted sequence a row ends where a greater row begins.
pub proof fn lemma_row_of_ends<T>(s: Seq<Triple<T>>, row: usize, i: int)
    requires
        sorted_by_row(s),
        0 <= i < s.len(),
        s[i].row > row,
    ensures
        row_of(s, row) == row_of(s.take(i), row),
    decreases s.len() - i,
{
    if i + 1 < s.len() {
        assert(s[i].row <= s[i + 1].row);
        lemma_row_of_ends(s, row, i + 1);
        lemma_row_of_step(s, row, i);
    } else {
        lemma_row_of_step(s, row, i);
        assert(s.take(i + 1) =~= s);
    }
}

/// A matrix that holds only the cells that were written. Its view is the
/// sequence of its cells in stored order: by row, and within a row in the
/// order in which the cells were first written.
pub struct SparseMatrix<T> {
    triples: Vec<Triple<T>>,
}

impl<T> View for SparseMatrix<T> {
    type V = Seq<Triple<T>>;

    closed spec fn view(&self) -> Seq<Triple<T>> {
        self.triples@
    }
}

impl<T: Copy> SparseMatrix<T> {
    /// The stored cells are sorted by row and no position occurs twice.
    pub open spec fn wf(&self) -> bool {
        sorted_by_row(self@) && keys_distinct(self@)
    }

    pub fn new() -> (m: Self)
        ensures
            m@ == Seq::<Triple<T>>::empty(),
            m.wf(),
    {
        SparseMatrix { triples: Vec::new() }
    }

    /// The number of stored cells.
    pub fn len(&self) -> (n: usize)
        ensures
            n == self@.len(),
    {
        self.triples.len()
    }

    /// The stored cell at position `i`.
    pub fn triple(&self, i: usize) -> (t: &Triple<T>)
        requires
            i < self@.len(),
        ensures
            *t == self@[i as int],
    {
        &self.triples[i]
    }

    pub fn get(&self, row: usize, col: usize) -> (r: Option<T>)
        requires
            self.wf(),
        ensures
            r == lookup(self@, row, col),
    {
        let mut i: usize = 0;
        while i < self.triples.len()
            invariant
                self.wf(),
                i <= self.triples.len(),
                forall|j: int|
                    0 <= j < i ==> !((#[trigger] self@[j]).row == row && self@[j].col == col),
            decreases self.triples.len() - i,
        {
            if self.triples[i].row == row && self.triples[i].col == col {
                proof {
                    lemma_key_index_unique(self@, i as int);
                }
                return Some(self.triples[i].value);
            }
            i += 1;
        }
        proof {
            lemma_key_index(self@, row, col);
        }
        None
    }
    /// Writes `value` at `(row, col)`, over the cell that is there or as a
    /// new cell at the end of its row.
    pub fn put(&mut self, row: usize, col: usize, value: T)
        requires
            old(self).wf(),
        ensures
            final(self)@ == put_spec(old(self)@, row, col, value),
            final(self).wf(),
    {
        proof {
            lemma_put_wf(self@, row, col, value);
        }
        let mut i: usize = 0;
        while i < self.triples.len()
            invariant
                self.wf(),
                self@ == old(self)@,
                i <= self.triples.len(),
                forall|j: int|
                    0 <= j < i ==> !((#[trigger] self@[j]).row == row && self@[j].col == col),
            decreases self.triples.len() - i,
        {
            if self.triples[i].row == row && self.triples[i].col == col {
                proof {
                    lemma_key_index_unique(self@, i as int);
                }
                self.triples[i].value = value;
                assert(self@ =~= old(self)@.update(i as int, Triple { row, col, value }));
                return ;
            }
            i += 1;
        }
        let mut p: usize = self.triples.len();
        while p > 0 && self.triples[p - 1].row > row
            invariant
                self.wf(),
                self@ == old(self)@,
                p <= self.triples.len(),
                forall|j: int| p <= j < self@.len() ==> (#[trigger] self@[j]).row > row,
            decreases p,
        {
            p -= 1;
        }
        proof {
            lemma_key_index(self@, row, col);
            assert forall|j: int| 0 <= j < p implies (#[trigger] self@[j]).row <= row by {
                assert(self@[j].row <= self@[p - 1].row);
            }
            lemma_insertion_point_unique(self@, row, p as int);
        }
        self.triples.insert(p, Triple { row, col, value });
    }
    /// The values of one row, in stored order.
    pub fn iter_row(&self, row: usize) -> (values: Vec<T>)
        requires
            self.wf(),
        ensures
            values@ == row_of(self@, row).map_values(|c: (usize, T)| c.1),
    {
        let mut values: Vec<T> = Vec::new();
        let mut i: usize = 0;
        while i < self.triples.len()
            invariant
                self.wf(),
                i <= self.triples.len(),
                values@ == row_of(self@.take(i as int), row).map_values(|c: (usize, T)| c.1),
            decreases self.triples.len() - i,
        {
            if self.triples[i].row > row {
                proof {
                    lemma_row_of_ends(self@, row, i as int);
                }
                return values;
            }
            proof {
                lemma_row_of_step(self@, row, i as int);
            }
            if self.triples[i].row == row {
                values.push(self.triples[i].value);
            }
            i += 1;
        }
        assert(self@.take(i as int) =~= self@);
        values
    }

    /// The cells of one row as `(col, value)`, in stored order.
    pub fn row_cells(&self, row: usize) -> (cells: Vec<(usize, T)>)
        requires
            self.wf(),
        ensures
            cells@ == row_of(self@, row),
    {
        let mut cells: Vec<(usize, T)> = Vec::new();
        let mut i: usize = 0;
        while i < self.triples.len()
            invariant
                self.wf(),
                i <= self.triples.len(),
                cells@ == row_of(self@.take(i as int), row),
            decreases self.triples.len() - i,
        {
            if self.triples[i].row > row {
                proof {
                    lemma_row_of_ends(self@, row, i as int);
                }
                return cells;
            }
            proof {
                lemma_row_of_step(self@, row, i as int);
            }
            if self.triples[i].row == row {
                cells.push((self.triples[i].col, self.triples[i].value));
            }
            i += 1;
        }
        assert(self@.take(i as int) =~= self@);
        cells
    }

    /// Replaces every value of one row by what `f` makes of it; every
    /// other cell, and every position, stays as it is.
    pub fn row_for_each<F>(&mut self, row: usize, f: F) where F: Fn(T) -> T
        requires
            old(self).wf(),
            forall|i: int|
                0 <= i < old(self)@.len() && old(self)@[i].row == row ==> call_requires(
                    f,
                    (#[trigger] old(self)@[i].value,),
                ),
        ensures
            final(self).wf(),
            final(self)@.len() == old(self)@.len(),
            forall|i: int|
                0 <= i < old(self)@.len() ==> {
                    &&& (#[trigger] final(self)@[i]).row == old(self)@[i].row
                    &&& final(self)@[i].col == old(self)@[i].col
                    &&& if old(self)@[i].row == row {
                        call_ensures(f, (old(self)@[i].value,), final(self)@[i].value)
                    } else {
                        final(self)@[i].value == old(self)@[i].value
                    }
                },
    {
        let mut i: usize = 0;
        while i < self.triples.len() && self.triples[i].row <= row
            invariant
                old(self).wf(),
                i <= self.triples.len(),
                self@.len() == old(self)@.len(),
                forall|j: int|
                    0 <= j < old(self)@.len() && old(self)@[j].row == row ==> call_requires(
                        f,
                        (#[trigger] old(self)@[j].value,),
                    ),
                forall|j: int| i <= j < self@.len() ==> (#[trigger] self@[j]) == old(self)@[j],
                forall|j: int|
                    0 <= j < i ==> {
                        &&& (#[trigger] self@[j]).row == old(self)@[j].row
                        &&& self@[j].col == old(self)@[j].col
                        &&& if old(self)@[j].row == row {
                            call_ensures(f, (old(self)@[j].value,), self@[j].value)
                        } else {
                            self@[j].value == old(self)@[j].value
                        }
                    },
            decreases self.triples.len() - i,
        {
            if self.triples[i].row == row {
                let ghost before = self@;
                let value = f(self.triples[i].value);
                self.triples[i].value = value;
                assert(self@ =~= before.update(
                    i as int,
                    Triple { row: before[i as int].row, col: before[i as int].col, value },
                ));
            }
            i += 1;
        }
        proof {
            let a = old(self)@;
            let b = self@;
            assert forall|j: int| i <= j < b.len() implies (#[trigger] a[j]).row != row by {
                assert(b[i as int] == a[i as int]);
                assert(a[i as int].row <= a[j].row);
            }
            assert forall|x: int, y: int| 0 <= x < y < b.len() implies (#[trigger] b[x]).row <= (
            #[trigger] b[y]).row by {
                assert(a[x].row <= a[y].row);
            }
            assert forall|x: int, y: int| 0 <= x < y < b.len() implies !((#[trigger] b[x]).row == (
            #[trigger] b[y]).row && b[x].col == b[y].col) by {
                assert(!(a[x].row == a[y].row && a[x].col == a[y].col));
            }
        }
    }
}

} // verus!
