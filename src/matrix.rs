use vstd::prelude::*;
use crate::fixed::{ONE, as_ints, fx_mul, mul_fx, sum, lemma_sum_update, lemma_entry_le_sum};
use crate::vectors::{ColVec, RowVec};

verus! {

/// One nonzero entry of a sparse row: a column index and its fixed-point weight.
#[derive(Clone, Copy)]
pub struct Cell {
    pub column: usize,
    pub value: u64,
}

impl Cell {
    pub fn new(column: usize, value: u64) -> (r: Cell)
        ensures
            r.column == column,
            r.value == value,
    {
        Cell { column, value }
    }
}

/// The nonzero entries of one matrix row, in insertion order.
pub struct SRow {
    pub elements: Vec<Cell>,
}

impl SRow {
    pub fn new() -> (r: SRow)
        ensures
            r.elements@.len() == 0,
    {
        SRow { elements: Vec::new() }
    }

    pub fn len(&self) -> (r: usize)
        ensures
            r == self.elements@.len(),
    {
        self.elements.len()
    }
}

/// A sparse `m` by `n` matrix stored row by row.
pub struct SMat {
    pub m: usize,
    pub n: usize,
    pub rows: Vec<SRow>,
}

impl SMat {
    /// The cells of row `i`.
    pub open spec fn row(&self, i: int) -> Seq<Cell> {
        self.rows@[i].elements@
    }

    /// The cells of every row.
    pub open spec fn cells(&self) -> Seq<Seq<Cell>> {
        Seq::new(self.rows@.len(), |i: int| self.rows@[i].elements@)
    }

    /// One row per index below `m`, and every column below `n`.
    pub open spec fn wf(&self) -> bool {
        &&& self.rows@.len() == self.m
        &&& forall|i: int, k: int|
            0 <= i < self.m && 0 <= k < self.row(i).len() ==> self.row(i)[k].column < self.n
    }

    /// Every cell holds the weight one.
    pub open spec fn is_unit(&self) -> bool {
        &&& self.wf()
        &&& forall|i: int, k: int| 0 <= i < self.m && 0 <= k < self.row(i).len() ==> self.row(i)[k].value == ONE
    }

    /// Every cell of a row holds one over the row's number of cells.
    pub open spec fn is_transition(&self) -> bool {
        &&& self.wf()
        &&& forall|i: int, k: int|
            0 <= i < self.m && 0 <= k < self.row(i).len() ==> self.row(i)[k].value as int == ONE as int / (self.row(i).len() as int)
    }

    /// An `m` by `n` matrix with no cells.
    pub fn new(m: usize, n: usize) -> (r: SMat)
        ensures
            r.wf(),
            r.is_unit(),
            r.m == m,
            r.n == n,
            forall|i: int| 0 <= i < m ==> r.row(i).len() == 0,
    {
        let mut rows: Vec<SRow> = Vec::with_capacity(m);
        let mut i: usize = 0;
        while i < m
            invariant
                i <= m,
                rows@.len() == i,
                forall|k: int| 0 <= k < i ==> rows@[k].elements@.len() == 0,
            decreases m - i,
        {
            rows.push(SRow::new());
            i = i + 1;
        }
        SMat { m, n, rows }
    }

    /// Records an edge from `row` to `column` as a cell of weight one, adding
    /// empty rows first where `row` is past the last one.
    pub fn add_edge(&mut self, row: usize, column: usize)
        requires
            old(self).wf(),
            column < old(self).n,
            row < usize::MAX,
        ensures
            final(self).wf(),
            old(self).is_unit() ==> final(self).is_unit(),
            final(self).n == old(self).n,
            final(self).m == if row < old(self).m { old(self).m } else { (row + 1) as usize },
            final(self).row(row as int) == (if row < old(self).m { old(self).row(row as int) } else {
                Seq::empty()
            }).push(Cell { column, value: ONE }),
            forall|i: int|
                0 <= i < final(self).m && i != row ==> final(self).row(i) == (if i < old(self).m {
                    old(self).row(i)
                } else {
                    Seq::empty()
                }),
    {
        while self.rows.len() <= row
            invariant
                self.wf(),
                self.n == old(self).n,
                old(self).m <= self.m,
                self.m == old(self).m || self.m <= row + 1,
                forall|i: int| 0 <= i < old(self).m ==> self.row(i) == old(self).row(i),
                forall|i: int| old(self).m <= i < self.m ==> self.row(i).len() == 0,
            decreases row + 1 - self.rows@.len(),
        {
            let ghost s0 = *self;
            self.rows.push(SRow::new());
            self.m = self.rows.len();
            proof {
                assert forall|i: int, k: int|
                    0 <= i < self.m && 0 <= k < self.row(i).len() implies self.row(i)[k].column
                        < self.n by {
                    assert(self.row(i) == s0.row(i));
                    assert(s0.row(i)[k].column < s0.n);
                }
                assert forall|i: int| 0 <= i < old(self).m implies self.row(i) == old(self).row(i) by {
                    assert(self.row(i) == s0.row(i));
                }
                assert forall|i: int| old(self).m <= i < self.m implies self.row(i).len() == 0 by {
                    if i < self.m - 1 {
                        assert(self.row(i) == s0.row(i));
                    }
                }
            }
        }
        let ghost s1 = *self;
        let ghost rows_before = self.rows@;
        self.rows[row].elements.push(Cell::new(column, ONE));
        proof {
            if row >= old(self).m {
                assert(s1.row(row as int) =~= Seq::<Cell>::empty());
            }
            assert(self.row(row as int) == s1.row(row as int).push(Cell { column, value: ONE }));
            assert forall|i: int|
                0 <= i < self.m && i != row implies self.row(i) == (if i < old(self).m {
                    old(self).row(i)
                } else {
                    Seq::empty()
                }) by {
                assert(self.rows@[i] == rows_before[i]);
                assert(self.row(i) == s1.row(i));
                if i >= old(self).m {
                    assert(s1.row(i) =~= Seq::<Cell>::empty());
                }
            }
            assert forall|i: int| 0 <= i < self.m && i != row implies self.rows@[i] == rows_before[i] by {}
            assert forall|i: int, k: int|
                0 <= i < self.m && 0 <= k < self.row(i).len() implies self.row(i)[k].column < self.n by {
                if i != row {
                    assert(self.rows@[i] == rows_before[i]);
                    assert(s1.row(i)[k].column < s1.n);
                } else if k < rows_before[i].elements@.len() {
                    assert(self.row(i)[k] == rows_before[i].elements@[k]);
                    assert(s1.row(i)[k].column < s1.n);
                }
            }
        }
    }
}

/// The column indices of a row's cells.
pub open spec fn columns_of(cells: Seq<Cell>) -> Seq<usize> {
    cells.map_values(|c: Cell| c.column)
}

/// The column indices of every row of `h`.
pub open spec fn column_lists(h: SMat) -> Seq<Seq<usize>> {
    Seq::new(h.m as nat, |i: int| columns_of(h.row(i)))
}

/// `rows` with `cols` appended to row `id`, after empty rows are added up to
/// `id` where `id` is past the last row.
pub open spec fn add_row_spec(rows: Seq<Seq<usize>>, id: int, cols: Seq<usize>) -> Seq<Seq<usize>> {
    let g = if id < rows.len() {
        rows
    } else {
        rows + Seq::new((id + 1 - rows.len()) as nat, |i: int| Seq::<usize>::empty())
    };
    g.update(id, g[id] + cols)
}

impl SMat {
    /// Appends the cells `columns`, each of weight one, to row `row`, adding
    /// empty rows first where `row` is past the last one.
    pub fn add_row(&mut self, row: usize, columns: &Vec<usize>)
        requires
            old(self).wf(),
            row < usize::MAX,
            forall|k: int| 0 <= k < columns@.len() ==> columns@[k] < old(self).n,
        ensures
            final(self).wf(),
            old(self).is_unit() ==> final(self).is_unit(),
            final(self).n == old(self).n,
            column_lists(*final(self)) == add_row_spec(column_lists(*old(self)), row as int, columns@),
    {
        let ghost g = add_row_spec(column_lists(*old(self)), row as int, Seq::empty());
        let ghost unit = old(self).is_unit();
        while self.rows.len() <= row
            invariant
                self.wf(),
                self.n == old(self).n,
                unit == old(self).is_unit(),
                unit ==> self.is_unit(),
                old(self).m <= self.m,
                self.m == old(self).m || self.m <= row + 1,
                forall|i: int| 0 <= i < old(self).m ==> self.row(i) == old(self).row(i),
                forall|i: int| old(self).m <= i < self.m ==> self.row(i).len() == 0,
            decreases row + 1 - self.rows@.len(),
        {
            let ghost s0 = *self;
            self.rows.push(SRow::new());
            self.m = self.rows.len();
            proof {
                assert forall|i: int| 0 <= i < self.m - 1 implies self.row(i) == s0.row(i) by {}
                assert forall|i: int| old(self).m <= i < self.m implies self.row(i).len() == 0 by {
                    if i < self.m - 1 {
                        assert(self.row(i) == s0.row(i));
                    }
                }
                assert forall|i: int, k: int|
                    0 <= i < self.m && 0 <= k < self.row(i).len() implies self.row(i)[k].column < self.n
                        && (unit ==> self.row(i)[k].value == ONE) by {
                    assert(self.row(i) == s0.row(i));
                    assert(s0.row(i)[k].column < s0.n);
                }
            }
        }
        proof {
            assert(g.len() == self.m);
            assert(column_lists(*self) =~= g.update(row as int, g[row as int] + columns@.take(0))) by {
                assert forall|i: int| 0 <= i < self.m implies column_lists(*self)[i] =~= g.update(
                    row as int,
                    g[row as int] + columns@.take(0),
                )[i] by {
                    if i < old(self).m {
                        assert(self.row(i) == old(self).row(i));
                    }
                }
            }
        }
        let mut j: usize = 0;
        while j < columns.len()
            invariant
                self.wf(),
                self.n == old(self).n,
                unit ==> self.is_unit(),
                row < self.m,
                g.len() == self.m,
                forall|k: int| 0 <= k < columns@.len() ==> columns@[k] < old(self).n,
                j <= columns@.len(),
                column_lists(*self) == g.update(row as int, g[row as int] + columns@.take(j as int)),
            decreases columns@.len() - j,
        {
            let ghost s0 = *self;
            self.add_edge(row, columns[j]);
            proof {
                assert(column_lists(*self) =~= g.update(row as int, g[row as int] + columns@.take(j as int + 1))) by {
                    assert forall|i: int| 0 <= i < self.m implies column_lists(*self)[i] =~= g.update(
                        row as int,
                        g[row as int] + columns@.take(j as int + 1),
                    )[i] by {
                        assert(column_lists(s0)[i] == columns_of(s0.row(i)));
                        assert(columns@.take(j as int + 1) =~= columns@.take(j as int).push(columns@[j as int]));
                        if i == row {
                            assert(columns_of(self.row(i)) =~= columns_of(s0.row(i)).push(columns@[j as int]));
                        } else {
                            assert(self.row(i) == s0.row(i));
                        }
                    }
                }
                if unit {
                    assert forall|i: int, k: int|
                        0 <= i < self.m && 0 <= k < self.row(i).len() implies self.row(i)[k].value == ONE by {
                        if i == row && k == self.row(i).len() - 1 {
                        } else {
                            assert(self.row(i)[k] == s0.row(i)[k]);
                        }
                    }
                }
            }
            j = j + 1;
        }
        proof {
            assert(columns@.take(columns@.len() as int) =~= columns@);
            assert(g.update(row as int, g[row as int] + columns@) =~= add_row_spec(
                column_lists(*old(self)),
                row as int,
                columns@,
            ));
        }
    }
}

/// Divides each cell's weight by the number of cells in its row, turning a
/// matrix of unit weights into a row-stochastic one.
pub fn m_to_h(m: &mut SMat)
    requires
        old(m).wf(),
    ensures
        final(m).wf(),
        old(m).is_unit() ==> final(m).is_transition(),
        final(m).m == old(m).m,
        final(m).n == old(m).n,
        forall|i: int| 0 <= i < old(m).m ==> final(m).row(i).len() == old(m).row(i).len(),
        forall|i: int, k: int|
            0 <= i < old(m).m && 0 <= k < old(m).row(i).len() ==> {
                &&& final(m).row(i)[k].column == old(m).row(i)[k].column
                &&& final(m).row(i)[k].value as int == old(m).row(i)[k].value as int / old(m).row(i).len() as int
            },
{
    let ghost before = m.rows@;
    let mut i: usize = 0;
    while i < m.m
        invariant
            m.wf(),
            m.m == old(m).m,
            m.n == old(m).n,
            before == old(m).rows@,
            before.len() == m.m,
            i <= m.m,
            forall|r: int| 0 <= r < m.m ==> m.row(r).len() == before[r].elements@.len(),
            forall|r: int| i <= r < m.m ==> m.rows@[r] == before[r],
            forall|r: int, k: int|
                0 <= r < i && 0 <= k < before[r].elements@.len() ==> {
                    &&& m.row(r)[k].column == before[r].elements@[k].column
                    &&& m.row(r)[k].value as int == before[r].elements@[k].value as int / before[r].elements@.len() as int
                },
        decreases m.m - i,
    {
        let nnz = m.rows[i].len();
        let ghost cells_i = m.rows@[i as int].elements@;
        let mut elements: Vec<Cell> = Vec::with_capacity(nnz);
        let mut k: usize = 0;
        while k < nnz
            invariant
                i < m.m,
                m.rows@.len() == m.m,
                m.rows@[i as int].elements@ == cells_i,
                nnz == cells_i.len(),
                elements@.len() == k,
                k <= nnz,
                forall|j: int| 0 <= j < k ==> {
                    &&& elements@[j].column == cells_i[j].column
                    &&& elements@[j].value as int == cells_i[j].value as int / nnz as int
                },
            decreases nnz - k,
        {
            let c = m.rows[i].elements[k];
            elements.push(Cell::new(c.column, c.value / (nnz as u64)));
            k = k + 1;
        }
        let ghost rows_mid = m.rows@;
        let ghost m0 = *m;
        m.rows.set(i, SRow { elements });
        proof {
            assert forall|r: int| 0 <= r < m.m && r != i implies m.rows@[r] == rows_mid[r] by {}
            assert forall|r: int, k: int|
                0 <= r < m.m && 0 <= k < m.row(r).len() implies m.row(r)[k].column < m.n by {
                if r != i {
                    assert(m.rows@[r] == rows_mid[r]);
                    assert(m0.row(r)[k].column < m0.n);
                } else {
                    assert(m.row(r)[k].column == cells_i[k].column);
                    assert(m0.row(r)[k].column < m0.n);
                }
            }
            assert forall|r: int, k: int|
                0 <= r < i + 1 && 0 <= k < before[r].elements@.len() implies {
                    &&& m.row(r)[k].column == before[r].elements@[k].column
                    &&& m.row(r)[k].value as int == before[r].elements@[k].value as int / before[r].elements@.len() as int
                } by {
                if r != i {
                    assert(m.rows@[r] == rows_mid[r]);
                    assert(m0.row(r)[k].column == before[r].elements@[k].column);
                } else {
                    assert(cells_i == before[r].elements@);
                }
            }
            assert forall|r: int| 0 <= r < m.m implies m.row(r).len() == before[r].elements@.len() by {
                if r != i {
                    assert(m.rows@[r] == rows_mid[r]);
                    assert(m0.row(r).len() == before[r].elements@.len());
                }
            }
        }
        i = i + 1;
    }
    proof {
        if old(m).is_unit() {
            assert forall|r: int, k: int|
                0 <= r < m.m && 0 <= k < m.row(r).len() implies m.row(r)[k].value as int == ONE as int / (m.row(
                    r,
                ).len() as int) by {
                assert(old(m).row(r)[k].value == ONE);
            }
        }
    }
}

/// The indicator of rows without cells: `ONE` where a row has no cell, zero
/// elsewhere.
pub fn absorbent_node_vec(m: &SMat) -> (r: ColVec)
    requires
        m.wf(),
    ensures
        r@.len() == m.m,
        forall|i: int| 0 <= i < m.m ==> r@[i] == if m.row(i).len() == 0 { ONE } else { 0 },
{
    let mut result = ColVec::zeroes(m.m);
    let mut i: usize = 0;
    while i < m.m
        invariant
            m.wf(),
            i <= m.m,
            result@.len() == m.m,
            forall|j: int| 0 <= j < i ==> result@[j] == if m.row(j).len() == 0 { ONE } else { 0 },
            forall|j: int| i <= j < m.m ==> result@[j] == 0,
        decreases m.m - i,
    {
        if m.rows[i].len() == 0 {
            result.set(i, ONE);
        }
        i = i + 1;
    }
    result
}

/// The weight that a source value `x` sends out through the cells of one row,
/// each term rounded down.
pub open spec fn row_out(x: int, cells: Seq<Cell>) -> int
    decreases cells.len(),
{
    if cells.len() == 0 {
        0
    } else {
        row_out(x, cells.drop_last()) + fx_mul(x, cells.last().value as int)
    }
}

/// The weight that the row vector `r` sends out through all of `rows`.
pub open spec fn total_out(r: Seq<u64>, rows: Seq<Seq<Cell>>) -> int
    decreases rows.len(),
{
    if rows.len() == 0 || r.len() == 0 {
        0
    } else {
        total_out(r.drop_last(), rows.drop_last()) + row_out(r.last() as int, rows.last())
    }
}

/// Adds `x` times each cell's weight, rounded down, to the entry of `acc` at
/// the cell's column, in cell order.
pub open spec fn scatter(acc: Seq<int>, x: int, cells: Seq<Cell>) -> Seq<int>
    decreases cells.len(),
{
    if cells.len() == 0 {
        acc
    } else {
        let a = scatter(acc, x, cells.drop_last());
        let c = cells.last();
        a.update(c.column as int, a[c.column as int] + fx_mul(x, c.value as int))
    }
}

/// The product of the row vector `r` and a matrix with rows `rows` and `n`
/// columns: starting from zeroes, each row `i` scatters `r[i]` times its weights.
pub open spec fn vec_mat(r: Seq<u64>, rows: Seq<Seq<Cell>>, n: nat) -> Seq<int>
    decreases rows.len(),
{
    if rows.len() == 0 {
        Seq::new(n, |j: int| 0)
    } else {
        scatter(vec_mat(r, rows.drop_last(), n), r[rows.len() - 1] as int, rows.last())
    }
}

pub proof fn lemma_row_out_prefix(x: int, cells: Seq<Cell>, k: int)
    requires
        x >= 0,
        0 <= k <= cells.len(),
    ensures
        0 <= row_out(x, cells.take(k)) <= row_out(x, cells),
    decreases cells.len(),
{
    if cells.len() > 0 {
        assert(fx_mul(x, cells.last().value as int) >= 0) by (nonlinear_arith)
            requires x >= 0, cells.last().value >= 0;
        if k == cells.len() {
            assert(cells.take(k) =~= cells);
            lemma_row_out_prefix(x, cells.drop_last(), k - 1);
            assert(cells.drop_last().take(k - 1) =~= cells.drop_last());
        } else {
            lemma_row_out_prefix(x, cells.drop_last(), k);
            assert(cells.drop_last().take(k) =~= cells.take(k));
        }
    } else {
        assert(cells.take(k) =~= cells);
    }
}

pub proof fn lemma_total_out_prefix(r: Seq<u64>, rows: Seq<Seq<Cell>>, i: int)
    requires
        0 <= i < rows.len(),
        rows.len() == r.len(),
    ensures
        0 <= total_out(r.take(i), rows.take(i)),
        total_out(r.take(i), rows.take(i)) + row_out(r[i] as int, rows[i]) <= total_out(r, rows),
    decreases rows.len(),
{
    lemma_row_out_prefix(r.last() as int, rows.last(), 0);
    assert(rows.last().take(0) =~= Seq::<Cell>::empty());
    if i == rows.len() - 1 {
        assert(rows.take(i) =~= rows.drop_last());
        assert(r.take(i) =~= r.drop_last());
        if i > 0 {
            lemma_total_out_prefix(r.drop_last(), rows.drop_last(), i - 1);
            lemma_row_out_prefix(r[i - 1] as int, rows[i - 1], 0);
            assert(rows[i - 1].take(0) =~= Seq::<Cell>::empty());
            assert(rows.take(i).drop_last() =~= rows.take(i - 1));
            assert(r.take(i).drop_last() =~= r.take(i - 1));
            assert(rows.drop_last().take(i - 1) =~= rows.take(i - 1));
            assert(r.drop_last().take(i - 1) =~= r.take(i - 1));
        }
    } else {
        lemma_total_out_prefix(r.drop_last(), rows.drop_last(), i);
        assert(rows.drop_last().take(i) =~= rows.take(i));
        assert(r.drop_last().take(i) =~= r.take(i));
    }
}

impl RowVec {
    /// The product of this row vector and the matrix `m`: entry `j` adds
    /// `self[i]` times the weight of every cell of row `i` at column `j`,
    /// each term rounded down.
    pub fn mul_mat(&self, m: &SMat) -> (r: RowVec)
        requires
            m.wf(),
            self@.len() == m.m,
            total_out(self@, m.cells()) <= u64::MAX,
        ensures
            r@.len() == m.n,
            as_ints(r@) == vec_mat(self@, m.cells(), m.n as nat),
            sum(r@) == total_out(self@, m.cells()),
    {
        let ghost cells = m.cells();
        let mut res = RowVec::zeroes(m.n);
        proof {
            assert(as_ints(res@) =~= vec_mat(self@, cells.take(0), m.n as nat));
            assert(cells.take(0).len() == 0);
            crate::fixed::lemma_sum_zeroes(res@);
        }
        let mut i: usize = 0;
        while i < m.m
            invariant
                m.wf(),
                cells == m.cells(),
                self@.len() == m.m,
                total_out(self@, cells) <= u64::MAX,
                i <= m.m,
                res@.len() == m.n,
                as_ints(res@) == vec_mat(self@, cells.take(i as int), m.n as nat),
                sum(res@) == total_out(self@.take(i as int), cells.take(i as int)),
            decreases m.m - i,
        {
            let x = self.get(i);
            let ghost before = as_ints(res@);
            let ghost base = total_out(self@.take(i as int), cells.take(i as int));
            let ghost row_i = cells[i as int];
            proof {
                lemma_total_out_prefix(self@, cells, i as int);
                assert(row_i.take(0) =~= Seq::<Cell>::empty());
            }
            let nnz = m.rows[i].len();
            let mut k: usize = 0;
            while k < nnz
                invariant
                    m.wf(),
                    cells == m.cells(),
                    i < m.m,
                    self@.len() == m.m,
                    x == self@[i as int],
                    row_i == cells[i as int],
                    base >= 0,
                    nnz == row_i.len(),
                    k <= nnz,
                    res@.len() == m.n,
                    base + row_out(x as int, row_i) <= u64::MAX,
                    as_ints(res@) == scatter(before, x as int, row_i.take(k as int)),
                    sum(res@) == base + row_out(x as int, row_i.take(k as int)),
                decreases nnz - k,
            {
                let c = m.rows[i].elements[k];
                assert(c == row_i[k as int]);
                assert(c == m.row(i as int)[k as int]);
                assert(c.column < m.n);
                proof {
                    assert(row_i.take(k as int + 1).drop_last() =~= row_i.take(k as int));
                    assert(row_i.take(k as int + 1).last() == c);
                    lemma_row_out_prefix(x as int, row_i, k as int + 1);
                    lemma_row_out_prefix(x as int, row_i, k as int);
                    lemma_entry_le_sum(res@, c.column as int);
                }
                let t = mul_fx(x, c.value);
                let v = res.get(c.column) + t;
                proof {
                    lemma_sum_update(res@, c.column as int, v);
                }
                res.set(c.column, v);
                proof {
                    assert(as_ints(res@) =~= scatter(before, x as int, row_i.take(k as int + 1)));
                }
                k = k + 1;
            }
            proof {
                assert(row_i.take(nnz as int) =~= row_i);
                assert(cells.take(i as int + 1).drop_last() =~= cells.take(i as int));
                assert(self@.take(i as int + 1).drop_last() =~= self@.take(i as int));
            }
            i = i + 1;
        }
        proof {
            assert(cells.take(m.m as int) =~= cells);
            assert(self@.take(m.m as int) =~= self@);
        }
        res
    }
}

/// The sum of the weights of a row's cells.
pub open spec fn row_weight(cells: Seq<Cell>) -> int
    decreases cells.len(),
{
    if cells.len() == 0 {
        0
    } else {
        row_weight(cells.drop_last()) + cells.last().value
    }
}

proof fn lemma_row_weight_constant(cells: Seq<Cell>, v: int)
    requires
        forall|k: int| 0 <= k < cells.len() ==> cells[k].value == v,
    ensures
        row_weight(cells) == cells.len() * v,
    decreases cells.len(),
{
    if cells.len() > 0 {
        lemma_row_weight_constant(cells.drop_last(), v);
        assert((cells.len() - 1) * v + v == cells.len() * v) by (nonlinear_arith);
    }
}

/// In a transition matrix every row with cells weighs one, less what rounding
/// drops: under one unit per cell.
pub proof fn lemma_transition_row_weight(h: SMat, i: int)
    requires
        h.is_transition(),
        0 <= i < h.m,
        h.row(i).len() > 0,
    ensures
        ONE - h.row(i).len() < row_weight(h.row(i)) <= ONE,
{
    let len = h.row(i).len() as int;
    let q = ONE as int / len;
    lemma_row_weight_constant(h.row(i), q);
    let one = ONE as int;
    assert(len * q <= one && one - len < len * q) by (nonlinear_arith)
        requires len > 0, q == one / len, one > 0;
}

} // verus!
