use vstd::prelude::*;
use crate::matrix::{SMat, Cell, column_lists, columns_of, add_row_spec};
use crate::text::{
    pieces, slice_of, lemma_pieces_shape, is_digits, decimal, number, digits, header_spec,
    columns_spec, row_spec, lines_of, rows_spec, load_spec, cells_text, row_text, rows_text,
    render_spec, title_bytes, by_bytes, lemma_first_index,
};

verus! {

/// The ranges `ps` moved `d` places to the right.
pub open spec fn shifted(ps: Seq<(int, int)>, d: int) -> Seq<(int, int)> {
    ps.map_values(|p: (int, int)| (p.0 + d, p.1 + d))
}

/// Without a separator there is one piece, the whole.
proof fn lemma_pieces_single(a: Seq<u8>, sep: u8)
    requires
        forall|i: int| 0 <= i < a.len() ==> a[i] != sep,
    ensures
        pieces(a, sep) == seq![(0int, a.len() as int)],
    decreases a.len(),
{
    if a.len() > 0 {
        lemma_pieces_single(a.drop_last(), sep);
        assert(pieces(a, sep) =~= seq![(0int, a.len() as int)]);
    }
}

/// Joining two texts with a separator joins their pieces.
proof fn lemma_pieces_join(a: Seq<u8>, b: Seq<u8>, sep: u8)
    ensures
        pieces(a + seq![sep] + b, sep) == pieces(a, sep) + shifted(pieces(b, sep), a.len() as int + 1),
    decreases b.len(),
{
    let s = a + seq![sep] + b;
    if b.len() == 0 {
        assert(s.drop_last() =~= a);
        assert(pieces(s, sep) =~= pieces(a, sep) + shifted(pieces(b, sep), a.len() as int + 1));
    } else {
        lemma_pieces_join(a, b.drop_last(), sep);
        assert(s.drop_last() =~= a + seq![sep] + b.drop_last());
        lemma_pieces_shape(b.drop_last(), sep);
        assert(pieces(s, sep) =~= pieces(a, sep) + shifted(pieces(b, sep), a.len() as int + 1));
    }
}

/// Decimal digits read back as the number they write.
proof fn lemma_digits(v: nat)
    ensures
        is_digits(digits(v)),
        decimal(digits(v)) == v,
        forall|i: int| 0 <= i < digits(v).len() ==> 48 <= #[trigger] digits(v)[i] <= 57,
    decreases v,
{
    if v >= 10 {
        lemma_digits(v / 10);
        assert(digits(v).drop_last() == digits(v / 10));
        assert(digits(v).last() == (48 + v % 10) as u8);
        assert((v / 10) * 10 + v % 10 == v) by (nonlinear_arith);
        let d = digits(v);
        assert(d.last() - 48 == v % 10);
        assert(decimal(d) == decimal(d.drop_last()) * 10 + (d.last() - 48));
    } else {
        let d = digits(v);
        assert(d.drop_last() =~= Seq::<u8>::empty());
        assert(d.last() - 48 == v);
        assert(decimal(d) == decimal(d.drop_last()) * 10 + (d.last() - 48));
    }
}

proof fn lemma_number_digits(v: usize)
    ensures
        number(digits(v as nat)) == Some(v),
{
    lemma_digits(v as nat);
}

/// A slice of the left part of a join is a slice of that part.
proof fn lemma_slice_left(a: Seq<u8>, b: Seq<u8>, p: (int, int))
    requires
        0 <= p.0 <= p.1 <= a.len(),
    ensures
        slice_of(a + b, p) == slice_of(a, p),
{
    assert(slice_of(a + b, p) =~= slice_of(a, p));
}

/// A slice of the right part of a join, moved past the left part.
proof fn lemma_slice_right(a: Seq<u8>, b: Seq<u8>, p: (int, int))
    requires
        0 <= p.0 <= p.1 <= b.len(),
    ensures
        slice_of(a + b, (p.0 + a.len(), p.1 + a.len())) == slice_of(b, p),
{
    assert(slice_of(a + b, (p.0 + a.len(), p.1 + a.len())) =~= slice_of(b, p));
}

/// The fields of a row's column text followed by `x`: one per column, then `x`.
proof fn lemma_cells_pieces(cells: Seq<Cell>, x: Seq<u8>)
    requires
        forall|i: int| 0 <= i < x.len() ==> x[i] != 32,
    ensures
        pieces(cells_text(cells) + x, 32).len() == cells.len() + 1,
        forall|k: int| 0 <= k < cells.len() ==> slice_of(cells_text(cells) + x, #[trigger] pieces(cells_text(cells) + x, 32)[k])
            == digits(cells[k].column as nat),
        slice_of(cells_text(cells) + x, pieces(cells_text(cells) + x, 32).last()) == x,
    decreases cells.len(),
{
    let t = cells_text(cells) + x;
    lemma_pieces_shape(t, 32);
    if cells.len() == 0 {
        assert(t =~= x);
        lemma_pieces_single(x, 32);
        assert(slice_of(t, pieces(t, 32).last()) =~= x);
    } else {
        let prev = cells.drop_last();
        let c = cells.last();
        let dc = digits(c.column as nat);
        lemma_digits(c.column as nat);
        let a = cells_text(prev) + dc;
        assert(t =~= a + seq![32u8] + x);
        lemma_pieces_join(a, x, 32);
        lemma_pieces_single(x, 32);
        lemma_cells_pieces(prev, dc);
        lemma_pieces_shape(a, 32);
        let pa = pieces(a, 32);
        let pt = pieces(t, 32);
        assert(pt =~= pa + seq![(a.len() as int + 1, t.len() as int)]);
        assert forall|k: int| 0 <= k < cells.len() implies slice_of(t, #[trigger] pt[k]) == digits(cells[k].column as nat) by {
            assert(pt[k] == pa[k]);
            assert(t =~= a + (seq![32u8] + x));
            lemma_slice_left(a, seq![32u8] + x, pa[k]);
            if k < prev.len() {
                assert(prev[k] == cells[k]);
            }
        }
        assert(slice_of(t, pt.last()) =~= x);
    }
}

/// The end mark `-1` after the fields of a row's columns.
pub open spec fn end_mark() -> Seq<u8> {
    seq![45u8, 49u8]
}

proof fn lemma_cells_columns_prefix(cells: Seq<Cell>, n: usize, k: int)
    requires
        forall|j: int| 0 <= j < cells.len() ==> cells[j].column < n,
        0 <= k <= cells.len(),
    ensures
        columns_spec(cells_text(cells) + end_mark(), pieces(cells_text(cells) + end_mark(), 32).take(k), n) == Some(
            columns_of(cells).take(k),
        ),
    decreases k,
{
    let t = cells_text(cells) + end_mark();
    let ps = pieces(t, 32);
    lemma_cells_pieces(cells, end_mark());
    if k == 0 {
        assert(ps.take(0).len() == 0);
        assert(columns_of(cells).take(0) =~= Seq::<usize>::empty());
    } else {
        let j = k - 1;
        lemma_cells_columns_prefix(cells, n, j);
        assert(ps.take(k).drop_last() =~= ps.take(j));
        assert(ps.take(k).last() == ps[j]);
        let dc = digits(cells[j].column as nat);
        lemma_number_digits(cells[j].column);
        lemma_digits(cells[j].column as nat);
        assert(slice_of(t, ps[j]) == dc);
        assert(dc != end_mark()) by {
            assert(48 <= dc[0]);
        }
        assert(columns_of(cells).take(k) =~= columns_of(cells).take(j).push(cells[j].column));
    }
}

/// The columns of a rendered row read back as the row's columns.
proof fn lemma_cells_columns(cells: Seq<Cell>, n: usize)
    requires
        forall|k: int| 0 <= k < cells.len() ==> cells[k].column < n,
    ensures
        columns_spec(cells_text(cells) + end_mark(), pieces(cells_text(cells) + end_mark(), 32), n) == Some(
            columns_of(cells),
        ),
{
    let t = cells_text(cells) + end_mark();
    let ps = pieces(t, 32);
    lemma_cells_pieces(cells, end_mark());
    let k = cells.len() as int;
    lemma_cells_columns_prefix(cells, n, k);
    assert(ps.take(ps.len() as int).drop_last() =~= ps.take(k));
    assert(ps.take(ps.len() as int) =~= ps);
    assert(slice_of(t, ps.last()) == end_mark());
    assert(columns_of(cells).take(k) =~= columns_of(cells));
}

/// A rendered row line reads back as its index and columns.
proof fn lemma_row_line(i: usize, cells: Seq<Cell>, n: usize)
    requires
        forall|k: int| 0 <= k < cells.len() ==> cells[k].column < n,
    ensures
        row_spec(row_text(i as nat, cells), n) == Some((i, columns_of(cells))),
{
    let line = row_text(i as nat, cells);
    let di = digits(i as nat);
    lemma_digits(i as nat);
    let body = cells_text(cells) + end_mark();
    let rest = line.subrange(4, line.len() as int);
    assert(rest =~= di + seq![58u8, 32u8] + body);
    assert forall|j: int| 0 <= j < di.len() implies rest[j] != 58 by {
        assert(rest[j] == di[j]);
    }
    assert(rest[di.len() as int] == 58);
    lemma_first_index(rest, 58, di.len() as int);
    assert(rest.subrange(0, di.len() as int) =~= di);
    assert(rest.subrange(di.len() as int + 2, rest.len() as int) =~= body);
    lemma_number_digits(i);
    lemma_cells_columns(cells, n);
}

/// The header line of a rendered matrix.
pub open spec fn header_text(m: usize, n: usize) -> Seq<u8> {
    title_bytes() + digits(m as nat) + by_bytes() + digits(n as nat)
}

/// A rendered header reads back as its dimensions.
proof fn lemma_header_line(m: usize, n: usize)
    ensures
        header_spec(header_text(m, n)) == Some((m, n)),
{
    let dm = digits(m as nat);
    let dn = digits(n as nat);
    lemma_digits(m as nat);
    lemma_digits(n as nat);
    let w1 = seq![83u8, 112u8, 97u8, 114u8, 115u8, 101u8, 77u8, 97u8, 116u8, 114u8, 105u8, 120u8, 58u8];
    let w2 = seq![98u8, 121u8];
    let line = header_text(m, n);
    let c = w2 + seq![32u8] + dn;
    let b = dm + seq![32u8] + c;
    assert(line =~= w1 + seq![32u8] + b);
    lemma_pieces_join(w1, b, 32);
    lemma_pieces_join(dm, c, 32);
    lemma_pieces_join(w2, dn, 32);
    assert forall|j: int| 0 <= j < dm.len() implies dm[j] != 32 by {}
    assert forall|j: int| 0 <= j < dn.len() implies dn[j] != 32 by {}
    lemma_pieces_single(w1, 32);
    lemma_pieces_single(w2, 32);
    lemma_pieces_single(dm, 32);
    lemma_pieces_single(dn, 32);
    let l = dm.len() as int;
    let f = pieces(line, 32);
    assert(f =~= seq![(0int, 13int), (14int, 14 + l), (15 + l, 17 + l), (18 + l, 18 + l + dn.len())]);
    assert(slice_of(line, f[1]) =~= dm);
    assert(slice_of(line, f[3]) =~= dn);
    lemma_number_digits(m);
    lemma_number_digits(n);
}

/// A rendered row line holds no newline.
proof fn lemma_row_no_newline(i: nat, cells: Seq<Cell>)
    ensures
        forall|j: int| 0 <= j < row_text(i, cells).len() ==> row_text(i, cells)[j] != 10,
        row_text(i, cells).len() >= 4,
{
    lemma_cells_no_newline(cells);
    lemma_digits(i);
}

proof fn lemma_cells_no_newline(cells: Seq<Cell>)
    ensures
        forall|j: int| 0 <= j < cells_text(cells).len() ==> cells_text(cells)[j] != 10,
    decreases cells.len(),
{
    if cells.len() > 0 {
        lemma_cells_no_newline(cells.drop_last());
        let p = cells_text(cells.drop_last());
        let d = digits(cells.last().column as nat);
        lemma_digits(cells.last().column as nat);
        let t = cells_text(cells);
        assert(t == p + d + seq![32u8]);
        assert forall|j: int| 0 <= j < t.len() implies t[j] != 10 by {
            if j < p.len() {
                assert(t[j] == p[j]);
            } else if j < p.len() + d.len() {
                assert(t[j] == d[j - p.len()]);
            }
        }
    }
}

/// The lines of the first `k` rendered rows are those rows' lines.
proof fn lemma_rows_pieces(h: SMat, k: nat)
    requires
        1 <= k,
    ensures
        pieces(rows_text(h, k), 10).len() == k,
        forall|j: int| 0 <= j < k ==> slice_of(rows_text(h, k), #[trigger] pieces(rows_text(h, k), 10)[j]) == row_text(
            j as nat,
            h.row(j),
        ),
    decreases k,
{
    lemma_row_no_newline((k - 1) as nat, h.row(k - 1));
    if k == 1 {
        lemma_pieces_single(rows_text(h, 1), 10);
        assert(slice_of(rows_text(h, 1), (0int, rows_text(h, 1).len() as int)) =~= rows_text(h, 1));
    } else {
        let a = rows_text(h, (k - 1) as nat);
        let b = row_text((k - 1) as nat, h.row(k - 1));
        lemma_rows_pieces(h, (k - 1) as nat);
        lemma_pieces_join(a, b, 10);
        lemma_pieces_single(b, 10);
        lemma_pieces_shape(a, 10);
        let t = rows_text(h, k);
        assert(t == a + seq![10u8] + b);
        assert forall|j: int| 0 <= j < k implies slice_of(t, #[trigger] pieces(t, 10)[j]) == row_text(j as nat, h.row(j)) by {
            if j < k - 1 {
                assert(pieces(t, 10)[j] == pieces(a, 10)[j]);
                assert(t =~= a + (seq![10u8] + b));
                lemma_slice_left(a, seq![10u8] + b, pieces(a, 10)[j]);
            } else {
                assert(pieces(t, 10)[j] == (a.len() as int + 1, a.len() as int + 1 + b.len()));
                assert(slice_of(t, pieces(t, 10)[j]) =~= b);
            }
        }
    }
}

/// The column lists after the first `k` rendered row lines are read.
proof fn lemma_rows_fold(h: SMat, text: Seq<u8>, body: Seq<(int, int)>, k: int)
    requires
        h.wf(),
        0 <= k <= h.m,
        body.len() == h.m,
        forall|j: int| 0 <= j < h.m ==> slice_of(text, #[trigger] body[j]) == row_text(j as nat, h.row(j)),
    ensures
        rows_spec(text, body.take(k), h.m, h.n) == Some(
            Seq::new(h.m as nat, |i: int| if i < k { columns_of(h.row(i)) } else { Seq::<usize>::empty() }),
        ),
    decreases k,
{
    if k == 0 {
        assert(body.take(0).len() == 0);
        assert(Seq::new(h.m as nat, |i: int| Seq::<usize>::empty()) =~= Seq::new(
            h.m as nat,
            |i: int| if i < k { columns_of(h.row(i)) } else { Seq::<usize>::empty() },
        ));
    } else {
        let j = k - 1;
        lemma_rows_fold(h, text, body, j);
        assert(body.take(k).drop_last() =~= body.take(j));
        assert(body.take(k).last() == body[j]);
        assert(forall|c: int| 0 <= c < h.row(j).len() ==> h.row(j)[c].column < h.n);
        lemma_row_line(j as usize, h.row(j), h.n);
        let prev = Seq::new(h.m as nat, |i: int| if i < j { columns_of(h.row(i)) } else { Seq::<usize>::empty() });
        assert(add_row_spec(prev, j, columns_of(h.row(j))) =~= Seq::new(
            h.m as nat,
            |i: int| if i < k { columns_of(h.row(i)) } else { Seq::<usize>::empty() },
        ));
    }
}

/// Rendering a matrix and reading the text back gives the same column count
/// and the same columns in every row, in order.
pub proof fn lemma_render_load(h: SMat)
    requires
        h.wf(),
    ensures
        load_spec(render_spec(h)) == Some((h.n, column_lists(h))),
{
    let head = header_text(h.m, h.n);
    let rows = rows_text(h, h.m as nat);
    let text = render_spec(h);
    assert(text =~= head + seq![10u8] + rows);
    lemma_pieces_join(head, rows, 10);
    lemma_digits(h.m as nat);
    lemma_digits(h.n as nat);
    assert forall|j: int| 0 <= j < head.len() implies head[j] != 10 by {
        let dm = digits(h.m as nat);
        let dn = digits(h.n as nat);
        if 14 <= j < 14 + dm.len() {
            assert(head[j] == dm[j - 14]);
        } else if 18 + dm.len() <= j {
            assert(head[j] == dn[j - 18 - dm.len()]);
        }
    }
    lemma_pieces_single(head, 10);
    lemma_header_line(h.m, h.n);
    let p = pieces(text, 10);
    let d = head.len() as int + 1;
    assert(slice_of(text, (0int, head.len() as int)) =~= head);
    if h.m == 0 {
        assert(rows.len() == 0);
        assert(pieces(rows, 10) == seq![(0int, 0int)]);
        assert(p =~= seq![(0int, head.len() as int), (d, d)]);
        assert(lines_of(text) =~= seq![(0int, head.len() as int)]);
        assert(lines_of(text).drop_first().len() == 0);
        assert(lines_of(text)[0] == (0int, head.len() as int));
        assert(header_spec(slice_of(text, lines_of(text)[0])) == Some((h.m, h.n)));
        assert(column_lists(h) =~= Seq::new(0, |i: int| Seq::<usize>::empty()));
    } else {
        lemma_rows_pieces(h, h.m as nat);
        lemma_pieces_shape(rows, 10);
        lemma_row_no_newline((h.m - 1) as nat, h.row(h.m - 1));
        let pr = pieces(rows, 10);
        assert(pr.last().1 == rows.len());
        assert(slice_of(rows, pr.last()) == row_text((h.m - 1) as nat, h.row(h.m - 1)));
        assert(pr.last().0 != pr.last().1);
        assert(lines_of(text) == p);
        let body = p.drop_first();
        assert(body =~= shifted(pr, d));
        assert forall|j: int| 0 <= j < h.m implies slice_of(text, #[trigger] body[j]) == row_text(j as nat, h.row(j)) by {
            assert(body[j] == (pr[j].0 + d, pr[j].1 + d));
            assert(text =~= (head + seq![10u8]) + rows);
            lemma_slice_right(head + seq![10u8], rows, pr[j]);
        }
        lemma_rows_fold(h, text, body, h.m as int);
        assert(body.take(h.m as int) =~= body);
        assert(lines_of(text)[0] == (0int, head.len() as int));
        assert(header_spec(slice_of(text, lines_of(text)[0])) == Some((h.m, h.n)));
        assert(Seq::new(h.m as nat, |i: int| if i < h.m { columns_of(h.row(i)) } else { Seq::<usize>::empty() })
            =~= column_lists(h));
    }
}

/// Rendering a matrix loaded from `text` gives a text that loads to the same
/// column count and the same columns in every row as `text` itself.
pub proof fn lemma_load_render(text: Seq<u8>, h: SMat)
    requires
        h.wf(),
        load_spec(text) == Some((h.n, column_lists(h))),
    ensures
        load_spec(render_spec(h)) == load_spec(text),
{
    lemma_render_load(h);
}

} // verus!
