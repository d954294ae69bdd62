use vstd::prelude::*;
use crate::fixed::{ONE, as_ints, fx_mul, mul_fx, sum, lemma_entry_le_sum, lemma_sum_constant};
use crate::matrix::{Cell, SMat, row_out, total_out, vec_mat, absorbent_node_vec};
use crate::vectors::{ColVec, RowVec, dot_spec};

verus! {

/// The part of `r` that sits on rows without cells.
pub open spec fn dangling_mass(r: Seq<u64>, rows: Seq<Seq<Cell>>) -> int
    decreases r.len(),
{
    if r.len() == 0 || rows.len() == 0 {
        0
    } else {
        dangling_mass(r.drop_last(), rows.drop_last()) + if rows.last().len() == 0 {
            r.last() as int
        } else {
            0
        }
    }
}

/// The part of `r` that sits on rows with at least one cell.
pub open spec fn linked_mass(r: Seq<u64>, rows: Seq<Seq<Cell>>) -> int
    decreases r.len(),
{
    if r.len() == 0 || rows.len() == 0 {
        0
    } else {
        linked_mass(r.drop_last(), rows.drop_last()) + if rows.last().len() == 0 {
            0
        } else {
            r.last() as int
        }
    }
}

/// Each cell of a row holds one over the row's number of cells.
pub open spec fn rows_stochastic(rows: Seq<Seq<Cell>>) -> bool {
    forall|i: int, k: int|
        0 <= i < rows.len() && 0 <= k < rows[i].len() ==> rows[i][k].value as int == ONE as int / (rows[i].len() as int)
}

/// `d` holds `w` at rows without cells and zero elsewhere.
pub open spec fn indicator_of(d: Seq<u64>, rows: Seq<Seq<Cell>>, w: u64) -> bool {
    &&& d.len() == rows.len()
    &&& forall|i: int| 0 <= i < rows.len() ==> d[i] == if rows[i].len() == 0 { w } else { 0 }
}

/// A square transition matrix, the operand of every ranking step.
pub open spec fn is_square_transition(h: SMat) -> bool {
    &&& h.is_transition()
    &&& h.m == h.n
    &&& h.n > 0
}

/// A square transition matrix has stochastic rows.
pub proof fn lemma_cells_stochastic(h: SMat)
    requires
        h.is_transition(),
    ensures
        rows_stochastic(h.cells()),
        h.cells().len() == h.m,
{
    assert forall|i: int, k: int|
        0 <= i < h.cells().len() && 0 <= k < h.cells()[i].len() implies h.cells()[i][k].value as int == ONE as int / (h.cells()[i].len() as int) by {
        assert(h.cells()[i] == h.row(i));
    }
}

proof fn lemma_row_out_constant(x: int, cells: Seq<Cell>, v: u64)
    requires
        forall|k: int| 0 <= k < cells.len() ==> cells[k].value == v,
    ensures
        row_out(x, cells) == cells.len() * fx_mul(x, v as int),
    decreases cells.len(),
{
    if cells.len() > 0 {
        lemma_row_out_constant(x, cells.drop_last(), v);
        let f = fx_mul(x, v as int);
        assert((cells.len() - 1) * f + f == cells.len() * f) by (nonlinear_arith);
    }
}

/// `count` shares of `x` at weight `ONE / count` never exceed `x`.
proof fn lemma_shares_le(x: int, count: int)
    requires
        x >= 0,
        count > 0,
    ensures
        count * fx_mul(x, ONE as int / count) <= x,
        fx_mul(x, ONE as int / count) >= 0,
{
    let one = ONE as int;
    let q = one / count;
    let f = fx_mul(x, q);
    assert(q * count <= one) by (nonlinear_arith)
        requires count > 0, q == one / count, one > 0;
    assert(q >= 0) by (nonlinear_arith)
        requires count > 0, q == one / count, one > 0;
    assert(f * one <= x * q && f >= 0) by (nonlinear_arith)
        requires f == (x * q) / one, one > 0, x >= 0, q >= 0;
    assert(count * f * one <= count * x * q) by (nonlinear_arith)
        requires f * one <= x * q, count > 0;
    assert(count * x * q <= x * one) by (nonlinear_arith)
        requires q * count <= one, x >= 0;
    assert(count * f <= x) by (nonlinear_arith)
        requires count * f * one <= x * one, one > 0;
}

/// The number of cells in all rows.
pub open spec fn cell_count(rows: Seq<Seq<Cell>>) -> int
    decreases rows.len(),
{
    if rows.len() == 0 {
        0
    } else {
        cell_count(rows.drop_last()) + rows.last().len()
    }
}

/// The number of rows without cells.
pub open spec fn dangling_count(rows: Seq<Seq<Cell>>) -> int
    decreases rows.len(),
{
    if rows.len() == 0 {
        0
    } else {
        dangling_count(rows.drop_last()) + if rows.last().len() == 0 { 1int } else { 0 }
    }
}

/// `count` shares of `x` at weight `ONE / count` lose less than two units
/// per share to rounding.
proof fn lemma_shares_ge(x: int, count: int)
    requires
        0 <= x <= ONE,
        count > 0,
    ensures
        count * fx_mul(x, ONE as int / count) >= x - 2 * count,
{
    let one = ONE as int;
    let q = one / count;
    let f = fx_mul(x, q);
    assert(q * count >= one - count + 1) by (nonlinear_arith)
        requires count > 0, q == one / count, one > 0;
    assert(q >= 0) by (nonlinear_arith)
        requires count > 0, q == one / count, one > 0;
    assert(f * one > x * q - one) by (nonlinear_arith)
        requires f == (x * q) / one, one > 0, x >= 0, q >= 0;
    assert(count * x * q >= x * one - x * count) by (nonlinear_arith)
        requires q * count >= one - count + 1, x >= 0, count > 0;
    assert(count * f * one > count * x * q - count * one) by (nonlinear_arith)
        requires f * one > x * q - one, count > 0;
    assert(x * count <= one * count) by (nonlinear_arith)
        requires x <= one, count > 0;
    assert(count * f * one > (x - 2 * count) * one) by (nonlinear_arith)
        requires
            count * f * one > count * x * q - count * one,
            count * x * q >= x * one - x * count,
            x * count <= one * count,
    ;
    assert(count * f > x - 2 * count) by (nonlinear_arith)
        requires count * f * one > (x - 2 * count) * one, one > 0;
}

/// Through stochastic rows, all but under two units per cell of the weight
/// on rows with cells leaves.
pub proof fn lemma_total_out_ge_linked(r: Seq<u64>, rows: Seq<Seq<Cell>>)
    requires
        r.len() == rows.len(),
        rows_stochastic(rows),
        forall|i: int| 0 <= i < r.len() ==> r[i] <= ONE,
    ensures
        total_out(r, rows) >= linked_mass(r, rows) - 2 * cell_count(rows),
    decreases r.len(),
{
    if r.len() > 0 {
        let cells = rows.last();
        assert(rows_stochastic(rows.drop_last())) by {
            assert forall|i: int, k: int|
                0 <= i < rows.drop_last().len() && 0 <= k < rows.drop_last()[i].len() implies rows.drop_last()[i][k].value as int
                    == ONE as int / (rows.drop_last()[i].len() as int) by {
                assert(rows.drop_last()[i] == rows[i]);
            }
        }
        lemma_total_out_ge_linked(r.drop_last(), rows.drop_last());
        if cells.len() > 0 {
            let v = (ONE as int / (cells.len() as int)) as u64;
            assert forall|k: int| 0 <= k < cells.len() implies cells[k].value == v by {
                assert(rows[rows.len() - 1] == cells);
            }
            lemma_row_out_constant(r.last() as int, cells, v);
            lemma_shares_ge(r.last() as int, cells.len() as int);
        }
    }
}

/// Spread over `count` rows at `ONE / count` each, the dangling weight loses
/// under two units per row and dangling entry.
proof fn lemma_dot_indicator_ge(r: Seq<u64>, d: Seq<u64>, rows: Seq<Seq<Cell>>, count: int)
    requires
        r.len() == rows.len(),
        count > 0,
        indicator_of(d, rows, (ONE as int / count) as u64),
        forall|i: int| 0 <= i < r.len() ==> r[i] <= ONE,
    ensures
        count * dot_spec(r, d) >= dangling_mass(r, rows) - 2 * count * dangling_count(rows),
    decreases r.len(),
{
    if r.len() > 0 {
        let w = (ONE as int / count) as u64;
        assert(indicator_of(d.drop_last(), rows.drop_last(), w)) by {
            assert forall|i: int| 0 <= i < rows.drop_last().len() implies d.drop_last()[i] == if rows.drop_last()[i].len() == 0 {
                w
            } else {
                0
            } by {
                assert(rows.drop_last()[i] == rows[i]);
            }
        }
        lemma_dot_indicator_ge(r.drop_last(), d.drop_last(), rows.drop_last(), count);
        let x = r.last() as int;
        assert(d.last() == d[rows.len() - 1]);
        assert(rows.last() == rows[rows.len() - 1]);
        let p = dot_spec(r.drop_last(), d.drop_last());
        let t = fx_mul(x, d.last() as int);
        assert(count * (p + t) == count * p + count * t) by (nonlinear_arith);
        let dc = dangling_count(rows.drop_last());
        assert(2 * count * (dc + 1) == 2 * count * dc + 2 * count) by (nonlinear_arith);
        if rows.last().len() == 0 {
            lemma_shares_ge(x, count);
        } else {
            assert(fx_mul(x, 0) == 0);
        }
    }
}

/// Through stochastic rows, no more weight leaves than sits on rows with cells.
pub proof fn lemma_total_out_le_linked(r: Seq<u64>, rows: Seq<Seq<Cell>>)
    requires
        r.len() == rows.len(),
        rows_stochastic(rows),
    ensures
        0 <= total_out(r, rows) <= linked_mass(r, rows),
    decreases r.len(),
{
    if r.len() > 0 {
        let cells = rows.last();
        assert(rows_stochastic(rows.drop_last())) by {
            assert forall|i: int, k: int|
                0 <= i < rows.drop_last().len() && 0 <= k < rows.drop_last()[i].len() implies rows.drop_last()[i][k].value as int
                    == ONE as int / (rows.drop_last()[i].len() as int) by {
                assert(rows.drop_last()[i] == rows[i]);
            }
        }
        lemma_total_out_le_linked(r.drop_last(), rows.drop_last());
        if cells.len() > 0 {
            let v = (ONE as int / (cells.len() as int)) as u64;
            assert(forall|k: int| 0 <= k < cells.len() ==> cells[k].value == v) by {
                assert forall|k: int| 0 <= k < cells.len() implies cells[k].value == v by {
                    assert(rows[rows.len() - 1] == cells);
                }
            }
            lemma_row_out_constant(r.last() as int, cells, v);
            lemma_shares_le(r.last() as int, cells.len() as int);
        }
    }
}

/// Where every row has a cell, no weight is dangling.
pub proof fn lemma_no_dangling(r: Seq<u64>, rows: Seq<Seq<Cell>>)
    requires
        forall|i: int| 0 <= i < rows.len() ==> rows[i].len() > 0,
    ensures
        dangling_mass(r, rows) == 0,
        dangling_count(rows) == 0,
    decreases rows.len(),
{
    if rows.len() > 0 {
        assert(rows.last() == rows[rows.len() - 1]);
        let rest = if r.len() > 0 { r.drop_last() } else { r };
        lemma_no_dangling(rest, rows.drop_last());
    }
}

/// A vector's sum splits into the part on rows with cells and the part on rows
/// without.
pub proof fn lemma_mass_split(r: Seq<u64>, rows: Seq<Seq<Cell>>)
    requires
        r.len() == rows.len(),
    ensures
        sum(r) == linked_mass(r, rows) + dangling_mass(r, rows),
        dangling_mass(r, rows) >= 0,
        linked_mass(r, rows) >= 0,
    decreases r.len(),
{
    if r.len() > 0 {
        lemma_mass_split(r.drop_last(), rows.drop_last());
    }
}

/// The dot product with an indicator of weight `w` takes `w` of every
/// dangling entry.
proof fn lemma_dot_indicator(r: Seq<u64>, d: Seq<u64>, rows: Seq<Seq<Cell>>, w: u64, count: int)
    requires
        r.len() == rows.len(),
        indicator_of(d, rows, w),
        count > 0,
        w == ONE || (w as int == ONE as int / count),
    ensures
        w == ONE ==> dot_spec(r, d) == dangling_mass(r, rows),
        w as int == ONE as int / count ==> count * dot_spec(r, d) <= dangling_mass(r, rows),
        dot_spec(r, d) >= 0,
    decreases r.len(),
{
    if r.len() > 0 {
        assert(indicator_of(d.drop_last(), rows.drop_last(), w)) by {
            assert forall|i: int| 0 <= i < rows.drop_last().len() implies d.drop_last()[i] == if rows.drop_last()[i].len() == 0 {
                w
            } else {
                0
            } by {
                assert(rows.drop_last()[i] == rows[i]);
            }
        }
        lemma_dot_indicator(r.drop_last(), d.drop_last(), rows.drop_last(), w, count);
        let x = r.last() as int;
        assert(d.last() == d[rows.len() - 1]);
        assert(rows.last() == rows[rows.len() - 1]);
        if rows.last().len() == 0 {
            assert(fx_mul(x, ONE as int) == x) by (nonlinear_arith)
                requires x >= 0;
            lemma_shares_le(x, count);
            let t = fx_mul(x, w as int);
            let p = dot_spec(r.drop_last(), d.drop_last());
            assert(count * (p + t) == count * p + count * t) by (nonlinear_arith);
        } else {
            assert(fx_mul(x, 0) == 0);
        }
    }
}

/// Weights scaled by `alpha` sit, on rows with cells, at most at `alpha` times
/// the unscaled part there.
proof fn lemma_linked_scaled(r: Seq<u64>, s: Seq<u64>, rows: Seq<Seq<Cell>>, alpha: u64)
    requires
        r.len() == rows.len(),
        s.len() == r.len(),
        forall|i: int| 0 <= i < r.len() ==> s[i] == fx_mul(r[i] as int, alpha as int),
    ensures
        linked_mass(s, rows) <= fx_mul(linked_mass(r, rows), alpha as int),
    decreases r.len(),
{
    if r.len() > 0 {
        lemma_linked_scaled(r.drop_last(), s.drop_last(), rows.drop_last(), alpha);
        lemma_mass_split(r.drop_last(), rows.drop_last());
        let a = linked_mass(r.drop_last(), rows.drop_last());
        let x = r.last() as int;
        let al = alpha as int;
        assert(fx_mul(a, al) + fx_mul(x, al) <= fx_mul(a + x, al)) by (nonlinear_arith)
            requires a >= 0, x >= 0, al >= 0;
        assert(fx_mul(a, al) >= 0) by (nonlinear_arith)
            requires a >= 0, al >= 0;
    }
}

/// A vector of equal shares `ONE / n`, one per row.
pub open spec fn uniform_spec(m: nat, n: nat) -> Seq<u64> {
    Seq::new(m, |i: int| (ONE as int / n as int) as u64)
}

/// The step of the plain model: the product with the transition matrix.
pub open spec fn plain_next(r: Seq<u64>, h: SMat) -> Seq<u64> {
    vec_mat(r, h.cells(), h.n as nat).map_values(|v: int| v as u64)
}

/// The step of the model that spreads the weight of rows without cells evenly
/// over all rows; `d` is the indicator of those rows divided by `n`.
pub open spec fn dangling_next(r: Seq<u64>, h: SMat, d: Seq<u64>) -> Seq<u64> {
    vec_mat(r, h.cells(), h.n as nat).map_values(|v: int| (v + dot_spec(r, d)) as u64)
}

/// The vector `r` scaled by the fixed-point factor `alpha`.
pub open spec fn scaled(r: Seq<u64>, alpha: u64) -> Seq<u64> {
    r.map_values(|v: u64| fx_mul(v as int, alpha as int) as u64)
}

/// What the damped model adds to every entry: `alpha` times the weight on rows
/// without cells, plus `ONE - alpha`, shared over `n` rows.
pub open spec fn damped_share(r: Seq<u64>, d: Seq<u64>, alpha: u64, n: nat) -> int {
    (fx_mul(alpha as int, dot_spec(r, d)) + (ONE - alpha)) / (n as int)
}

/// The step of the damped model; `d` is the indicator of rows without cells.
pub open spec fn damped_next(r: Seq<u64>, h: SMat, d: Seq<u64>, alpha: u64) -> Seq<u64> {
    vec_mat(scaled(r, alpha), h.cells(), h.n as nat).map_values(
        |v: int| (v + damped_share(r, d, alpha, h.n as nat)) as u64,
    )
}

/// The start of every iteration: `ONE / n` on each of `m` rows.
pub fn uniform(m: usize, n: usize) -> (r: RowVec)
    requires
        n > 0,
    ensures
        r@ == uniform_spec(m as nat, n as nat),
        m == n ==> sum(r@) <= ONE,
{
    let share: u64 = ONE / (n as u64);
    let r = RowVec::init_with(m, |i: usize| -> (v: u64)
        ensures
            v == share,
        { share });
    proof {
        assert(r@ =~= uniform_spec(m as nat, n as nat));
        lemma_sum_constant(r@, share);
        if m == n {
            assert(m * (ONE as int / m as int) <= ONE) by (nonlinear_arith)
                requires m > 0;
        }
    }
    r
}

/// One step of the plain model.
pub fn plain_step(r: &RowVec, h: &SMat) -> (out: RowVec)
    requires
        is_square_transition(*h),
        r@.len() == h.m,
        sum(r@) <= u64::MAX,
    ensures
        out@.len() == h.n,
        out@ == plain_next(r@, *h),
        sum(out@) == total_out(r@, h.cells()),
        sum(out@) + dangling_mass(r@, h.cells()) <= sum(r@),
        sum(r@) <= ONE ==> sum(out@) + dangling_mass(r@, h.cells()) + 2 * cell_count(h.cells()) >= sum(r@),
{
    proof {
        lemma_cells_stochastic(*h);
        lemma_total_out_le_linked(r@, h.cells());
        lemma_mass_split(r@, h.cells());
        if sum(r@) <= ONE {
            assert forall|i: int| 0 <= i < r@.len() implies r@[i] <= ONE by {
                lemma_entry_le_sum(r@, i);
            }
            lemma_total_out_ge_linked(r@, h.cells());
        }
    }
    let out = r.mul_mat(h);
    proof {
        assert(out@ =~= plain_next(r@, *h)) by {
            assert forall|j: int| 0 <= j < out@.len() implies out@[j] == plain_next(r@, *h)[j] by {
                assert(as_ints(out@)[j] == out@[j] as int);
            }
        }
    }
    out
}

/// One step of the model that spreads the weight of rows without cells;
/// `d` holds `ONE / n` at those rows and zero elsewhere.
pub fn dangling_step(r: &RowVec, h: &SMat, d: &ColVec) -> (out: RowVec)
    requires
        is_square_transition(*h),
        r@.len() == h.m,
        indicator_of(d@, h.cells(), (ONE as int / h.n as int) as u64),
        sum(r@) <= u64::MAX,
    ensures
        out@.len() == h.n,
        out@ == dangling_next(r@, *h, d@),
        sum(out@) == total_out(r@, h.cells()) + h.n * dot_spec(r@, d@),
        sum(out@) <= sum(r@),
        sum(r@) <= ONE ==> sum(out@) + 2 * (cell_count(h.cells()) + h.n * dangling_count(h.cells())) >= sum(r@),
{
    let ghost cells = h.cells();
    proof {
        lemma_cells_stochastic(*h);
        lemma_total_out_le_linked(r@, cells);
        lemma_mass_split(r@, cells);
        lemma_dot_indicator(r@, d@, cells, (ONE as int / h.n as int) as u64, h.n as int);
        if sum(r@) <= ONE {
            assert forall|i: int| 0 <= i < r@.len() implies r@[i] <= ONE by {
                lemma_entry_le_sum(r@, i);
            }
            lemma_total_out_ge_linked(r@, cells);
            lemma_dot_indicator_ge(r@, d@, cells, h.n as int);
        }
        assert(dot_spec(r@, d@) <= h.n * dot_spec(r@, d@)) by (nonlinear_arith)
            requires
                h.n >= 1,
                dot_spec(r@, d@) >= 0,
        ;
    }
    let leaked = r.dot(d);
    let mut out = r.mul_mat(h);
    proof {
        assert forall|j: int| 0 <= j < out@.len() implies out@[j] + leaked <= u64::MAX by {
            lemma_entry_le_sum(out@, j);
        }
    }
    let ghost mid = out@;
    out.add_to_all(leaked);
    proof {
        assert(out@ =~= dangling_next(r@, *h, d@)) by {
            assert forall|j: int| 0 <= j < out@.len() implies out@[j] == dangling_next(r@, *h, d@)[j] by {
                assert(as_ints(mid)[j] == mid[j] as int);
            }
        }
        assert(h.n * dot_spec(r@, d@) <= dangling_mass(r@, cells));
        let dc = dangling_count(cells);
        let nn = h.n as int;
        assert(2 * (cell_count(cells) + nn * dc) == 2 * cell_count(cells) + 2 * nn * dc) by (nonlinear_arith);
    }
    out
}

/// One step of the damped model with damping factor `alpha`; `d` holds `ONE`
/// at rows without cells and zero elsewhere.
pub fn damped_step(r: &RowVec, h: &SMat, d: &ColVec, alpha: u64) -> (out: RowVec)
    requires
        is_square_transition(*h),
        r@.len() == h.m,
        indicator_of(d@, h.cells(), ONE),
        alpha <= ONE,
        sum(r@) <= ONE,
    ensures
        out@.len() == h.n,
        out@ == damped_next(r@, *h, d@, alpha),
        sum(out@) <= ONE,
        alpha == 0 ==> out@ == uniform_spec(h.m as nat, h.n as nat),
{
    let ghost cells = h.cells();
    proof {
        lemma_cells_stochastic(*h);
        lemma_mass_split(r@, cells);
        lemma_dot_indicator(r@, d@, cells, ONE, 1);
        assert(fx_mul(alpha as int, dot_spec(r@, d@)) <= ONE) by (nonlinear_arith)
            requires
                0 <= dot_spec(r@, d@) <= ONE,
                alpha <= ONE,
        ;
        assert forall|i: int| 0 <= i < r@.len() implies fx_mul(r@[i] as int, alpha as int) <= u64::MAX by {
            lemma_entry_le_sum(r@, i);
            assert(fx_mul(r@[i] as int, alpha as int) <= ONE) by (nonlinear_arith)
                requires
                    r@[i] <= ONE,
                    alpha <= ONE,
            ;
        }
    }
    let leaked = r.dot(d);
    let share = (mul_fx(alpha, leaked) + (ONE - alpha)) / (h.n as u64);
    let s = r.mul(alpha);
    proof {
        lemma_linked_scaled(r@, s@, cells, alpha);
        lemma_mass_split(s@, cells);
        lemma_total_out_le_linked(s@, cells);
        lemma_mass_split(r@, cells);
        let l = linked_mass(r@, cells);
        let dm = dangling_mass(r@, cells);
        let al = alpha as int;
        assert(fx_mul(l, al) + fx_mul(al, dm) <= al) by (nonlinear_arith)
            requires
                l >= 0,
                dm >= 0,
                l + dm <= ONE,
                0 <= al <= ONE,
        ;
        let n = h.n as int;
        let t = fx_mul(al, dm) + (ONE - al);
        assert(n * (t / n) <= t) by (nonlinear_arith)
            requires n > 0, t >= 0;
        assert(s@ =~= scaled(r@, alpha));
    }
    let mut out = s.mul_mat(h);
    proof {
        assert forall|j: int| 0 <= j < out@.len() implies out@[j] + share <= u64::MAX by {
            lemma_entry_le_sum(out@, j);
        }
    }
    let ghost mid = out@;
    out.add_to_all(share);
    proof {
        assert(out@ =~= damped_next(r@, *h, d@, alpha)) by {
            assert forall|j: int| 0 <= j < out@.len() implies out@[j] == damped_next(r@, *h, d@, alpha)[j] by {
                assert(as_ints(mid)[j] == mid[j] as int);
            }
        }
        if alpha == 0 {
            assert(linked_mass(s@, cells) <= 0);
            assert forall|j: int| 0 <= j < mid.len() implies mid[j] == 0 by {
                lemma_entry_le_sum(mid, j);
            }
            assert(out@ =~= uniform_spec(h.m as nat, h.n as nat));
        }
    }
    out
}

/// The indicator of rows without cells, holding `w` there and zero elsewhere.
pub open spec fn indicator_spec(rows: Seq<Seq<Cell>>, w: u64) -> Seq<u64> {
    Seq::new(rows.len(), |i: int| if rows[i].len() == 0 { w } else { 0 })
}

/// The plain model after `k` steps from the uniform vector.
pub open spec fn plain_iter(h: SMat, k: nat) -> Seq<u64>
    decreases k,
{
    if k == 0 {
        uniform_spec(h.m as nat, h.n as nat)
    } else {
        plain_next(plain_iter(h, (k - 1) as nat), h)
    }
}

/// The model that spreads the weight of rows without cells, after `k` steps
/// from the uniform vector.
pub open spec fn dangling_iter(h: SMat, k: nat) -> Seq<u64>
    decreases k,
{
    if k == 0 {
        uniform_spec(h.m as nat, h.n as nat)
    } else {
        dangling_next(
            dangling_iter(h, (k - 1) as nat),
            h,
            indicator_spec(h.cells(), (ONE as int / h.n as int) as u64),
        )
    }
}

/// The damped model after `k` steps from the uniform vector.
pub open spec fn damped_iter(h: SMat, alpha: u64, k: nat) -> Seq<u64>
    decreases k,
{
    if k == 0 {
        uniform_spec(h.m as nat, h.n as nat)
    } else {
        damped_next(damped_iter(h, alpha, (k - 1) as nat), h, indicator_spec(h.cells(), ONE), alpha)
    }
}

/// Runs `steps` steps of the plain model from the uniform vector.
pub fn plain_rank(h: &SMat, steps: usize) -> (r: RowVec)
    requires
        is_square_transition(*h),
    ensures
        r@ == plain_iter(*h, steps as nat),
        sum(r@) <= ONE,
{
    let mut r = uniform(h.m, h.n);
    let mut k: usize = 0;
    while k < steps
        invariant
            is_square_transition(*h),
            k <= steps,
            r@ == plain_iter(*h, k as nat),
            r@.len() == h.m,
            sum(r@) <= ONE,
        decreases steps - k,
    {
        proof {
            lemma_mass_split(r@, h.cells());
        }
        r = plain_step(&r, h);
        k = k + 1;
    }
    r
}

/// Runs `steps` steps of the model that spreads the weight of rows without
/// cells, from the uniform vector.
pub fn dangling_rank(h: &SMat, steps: usize) -> (r: RowVec)
    requires
        is_square_transition(*h),
    ensures
        r@ == dangling_iter(*h, steps as nat),
        sum(r@) <= ONE,
{
    let mut r = uniform(h.m, h.n);
    let d = absorbent_node_vec(h).div(h.n as u64);
    assert(d@ =~= indicator_spec(h.cells(), (ONE as int / h.n as int) as u64));
    let mut k: usize = 0;
    while k < steps
        invariant
            is_square_transition(*h),
            k <= steps,
            d@ == indicator_spec(h.cells(), (ONE as int / h.n as int) as u64),
            r@ == dangling_iter(*h, k as nat),
            r@.len() == h.m,
            sum(r@) <= ONE,
        decreases steps - k,
    {
        r = dangling_step(&r, h, &d);
        k = k + 1;
    }
    r
}

/// Runs `steps` steps of the damped model with damping factor `alpha`, from
/// the uniform vector.
pub fn damped_rank(h: &SMat, steps: usize, alpha: u64) -> (r: RowVec)
    requires
        is_square_transition(*h),
        alpha <= ONE,
    ensures
        r@ == damped_iter(*h, alpha, steps as nat),
        sum(r@) <= ONE,
{
    let mut r = uniform(h.m, h.n);
    let d = absorbent_node_vec(h);
    assert(d@ =~= indicator_spec(h.cells(), ONE));
    let mut k: usize = 0;
    while k < steps
        invariant
            is_square_transition(*h),
            alpha <= ONE,
            k <= steps,
            d@ == indicator_spec(h.cells(), ONE),
            r@ == damped_iter(*h, alpha, k as nat),
            r@.len() == h.m,
            sum(r@) <= ONE,
        decreases steps - k,
    {
        r = damped_step(&r, h, &d, alpha);
        k = k + 1;
    }
    r
}

} // verus!
