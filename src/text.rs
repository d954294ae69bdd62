use vstd::prelude::*;
use crate::matrix::{SMat, Cell, column_lists, columns_of, add_row_spec};

verus! {

/// The pieces of `s` between occurrences of `sep`, as `(start, end)` index
/// pairs; `n` separators give `n + 1` pieces.
pub open spec fn pieces(s: Seq<u8>, sep: u8) -> Seq<(int, int)>
    decreases s.len(),
{
    if s.len() == 0 {
        seq![(0int, 0int)]
    } else {
        let p = pieces(s.drop_last(), sep);
        if s.last() == sep {
            p.push((s.len() as int, s.len() as int))
        } else {
            p.update(p.len() - 1, (p.last().0, s.len() as int))
        }
    }
}

pub proof fn lemma_pieces_shape(s: Seq<u8>, sep: u8)
    ensures
        pieces(s, sep).len() >= 1,
        pieces(s, sep).last().1 == s.len(),
        forall|k: int| 0 <= k < pieces(s, sep).len() ==> 0 <= #[trigger] pieces(s, sep)[k].0 <= pieces(s, sep)[k].1 <= s.len(),
    decreases s.len(),
{
    if s.len() > 0 {
        lemma_pieces_shape(s.drop_last(), sep);
    }
}

/// Splits `s` at every `sep`.
pub fn split_at_byte(s: &[u8], sep: u8) -> (r: Vec<(usize, usize)>)
    ensures
        r@.len() == pieces(s@, sep).len(),
        forall|k: int| 0 <= k < r@.len() ==> r@[k].0 as int == pieces(s@, sep)[k].0 && r@[k].1 as int == pieces(s@, sep)[k].1,
{
    let mut done: Vec<(usize, usize)> = Vec::new();
    let mut start: usize = 0;
    let mut i: usize = 0;
    while i < s.len()
        invariant
            i <= s@.len(),
            start <= i,
            done@.len() + 1 == pieces(s@.take(i as int), sep).len(),
            pieces(s@.take(i as int), sep).last() == (start as int, i as int),
            forall|k: int| 0 <= k < done@.len() ==> done@[k].0 as int == pieces(s@.take(i as int), sep)[k].0
                && done@[k].1 as int == pieces(s@.take(i as int), sep)[k].1,
        decreases s@.len() - i,
    {
        proof {
            assert(s@.take(i as int + 1).drop_last() =~= s@.take(i as int));
            lemma_pieces_shape(s@.take(i as int), sep);
        }
        if s[i] == sep {
            done.push((start, i));
            start = i + 1;
        }
        i = i + 1;
    }
    done.push((start, i));
    proof {
        assert(s@.take(i as int) =~= s@);
    }
    done
}

/// The bytes are all decimal digits, and there is at least one.
pub open spec fn is_digits(s: Seq<u8>) -> bool {
    s.len() > 0 && forall|i: int| 0 <= i < s.len() ==> 48 <= #[trigger] s[i] <= 57
}

/// The value of a string of decimal digits.
pub open spec fn decimal(s: Seq<u8>) -> int
    decreases s.len(),
{
    if s.len() == 0 {
        0
    } else {
        decimal(s.drop_last()) * 10 + (s.last() - 48)
    }
}

/// The number that `s` writes in decimal, where it fits in `usize`.
pub open spec fn number(s: Seq<u8>) -> Option<usize> {
    if is_digits(s) && decimal(s) <= usize::MAX {
        Some(decimal(s) as usize)
    } else {
        None
    }
}

proof fn lemma_decimal_prefix(s: Seq<u8>, k: int)
    requires
        0 <= k <= s.len(),
        forall|i: int| 0 <= i < s.len() ==> 48 <= #[trigger] s[i] <= 57,
    ensures
        0 <= decimal(s.take(k)) <= decimal(s),
    decreases s.len(),
{
    if k == s.len() {
        assert(s.take(k) =~= s);
        if s.len() > 0 {
            lemma_decimal_prefix(s.drop_last(), k - 1);
            assert(s.drop_last().take(k - 1) =~= s.drop_last());
        }
    } else {
        lemma_decimal_prefix(s.drop_last(), k);
        assert(s.drop_last().take(k) =~= s.take(k));
        lemma_decimal_prefix(s.drop_last(), s.len() - 1);
        assert(s.drop_last().take(s.len() - 1) =~= s.drop_last());
    }
}

/// Reads the decimal number in `s[start..end]`.
pub fn parse_number(s: &[u8], start: usize, end: usize) -> (r: Option<usize>)
    requires
        start <= end <= s@.len(),
    ensures
        r == number(s@.subrange(start as int, end as int)),
{
    let ghost t = s@.subrange(start as int, end as int);
    if start == end {
        return None;
    }
    let mut acc: usize = 0;
    let mut i: usize = start;
    while i < end
        invariant
            start <= i <= end <= s@.len(),
            t == s@.subrange(start as int, end as int),
            forall|j: int| 0 <= j < i - start ==> 48 <= #[trigger] t[j] <= 57,
            acc as int == decimal(t.take(i - start)),
        decreases end - i,
    {
        let b = s[i];
        if b < 48 || b > 57 {
            assert(!is_digits(t)) by {
                assert(t[i - start] == b);
            }
            return None;
        }
        proof {
            assert(t.take(i - start + 1).drop_last() =~= t.take(i - start));
        }
        if acc > (usize::MAX - (b - 48) as usize) / 10 {
            proof {
                assert forall|j: int| 0 <= j < i - start + 1 implies 48 <= #[trigger] t.take(i - start + 1)[j] <= 57 by {
                }
                if is_digits(t) {
                    lemma_decimal_prefix(t, i - start + 1);
                }
            }
            return None;
        }
        acc = acc * 10 + (b - 48) as usize;
        i = i + 1;
    }
    proof {
        assert(t.take(end - start) =~= t);
    }
    Some(acc)
}

/// The bytes of `s` in the index range `p`.
pub open spec fn slice_of(s: Seq<u8>, p: (int, int)) -> Seq<u8> {
    s.subrange(p.0, p.1)
}

/// The index of the first `b` in `s`, or the length of `s` where there is none.
pub open spec fn first_index(s: Seq<u8>, b: u8) -> int
    decreases s.len(),
{
    if s.len() == 0 {
        0
    } else if s[0] == b {
        0
    } else {
        1 + first_index(s.drop_first(), b)
    }
}

pub proof fn lemma_first_index(s: Seq<u8>, b: u8, i: int)
    requires
        0 <= i <= s.len(),
        forall|j: int| 0 <= j < i ==> s[j] != b,
        i == s.len() || s[i] == b,
    ensures
        first_index(s, b) == i,
    decreases s.len(),
{
    if s.len() > 0 && i > 0 {
        lemma_first_index(s.drop_first(), b, i - 1);
    }
}

/// The row and column counts of a header `<word> <m> <word> <n>`: its second
/// and fourth space-separated fields.
pub open spec fn header_spec(line: Seq<u8>) -> Option<(usize, usize)> {
    let f = pieces(line, 32);
    if f.len() < 4 {
        None
    } else {
        match (number(slice_of(line, f[1])), number(slice_of(line, f[3]))) {
            (Some(m), Some(n)) => Some((m, n)),
            _ => None,
        }
    }
}

/// The columns listed by the fields `ps` of `s`: each field is a column below
/// `n`, or the end mark `-1`, which is left out.
pub open spec fn columns_spec(s: Seq<u8>, ps: Seq<(int, int)>, n: usize) -> Option<Seq<usize>>
    decreases ps.len(),
{
    if ps.len() == 0 {
        Some(Seq::empty())
    } else {
        match columns_spec(s, ps.drop_last(), n) {
            None => None,
            Some(prev) => {
                let field = slice_of(s, ps.last());
                if field == seq![45u8, 49u8] {
                    Some(prev)
                } else {
                    match number(field) {
                        Some(c) => if c < n {
                            Some(prev.push(c))
                        } else {
                            None
                        },
                        None => None,
                    }
                }
            },
        }
    }
}

/// A row line `row <id>: <c1> .. <ck> -1`: four bytes of prefix, the row
/// index up to a colon, one byte after the colon, then space-separated
/// columns below `n`.
pub open spec fn row_spec(line: Seq<u8>, n: usize) -> Option<(usize, Seq<usize>)> {
    if line.len() < 4 {
        None
    } else {
        let rest = line.subrange(4, line.len() as int);
        let colon = first_index(rest, 58);
        if colon + 2 > rest.len() {
            None
        } else {
            let tail = rest.subrange(colon + 2, rest.len() as int);
            match (number(rest.subrange(0, colon)), columns_spec(tail, pieces(tail, 32), n)) {
                (Some(id), Some(cols)) => Some((id, cols)),
                _ => None,
            }
        }
    }
}

/// Copies `s[start..end]`.
fn copy_range(s: &[u8], start: usize, end: usize) -> (r: Vec<u8>)
    requires
        start <= end <= s@.len(),
    ensures
        r@ == s@.subrange(start as int, end as int),
{
    let mut v: Vec<u8> = Vec::with_capacity(end - start);
    let mut i: usize = start;
    while i < end
        invariant
            start <= i <= end <= s@.len(),
            v@ == s@.subrange(start as int, i as int),
        decreases end - i,
    {
        v.push(s[i]);
        proof {
            assert(v@ =~= s@.subrange(start as int, i as int + 1));
        }
        i = i + 1;
    }
    v
}

/// Reads a header line.
pub fn parse_header(line: &[u8]) -> (r: Option<(usize, usize)>)
    ensures
        r == header_spec(line@),
{
    let f = split_at_byte(line, 32);
    proof {
        lemma_pieces_shape(line@, 32);
    }
    if f.len() < 4 {
        return None;
    }
    let m = parse_number(line, f[1].0, f[1].1);
    let n = parse_number(line, f[3].0, f[3].1);
    match (m, n) {
        (Some(m), Some(n)) => Some((m, n)),
        _ => None,
    }
}

/// Reads the columns in the fields `f` of `s`.
fn parse_columns(s: &[u8], f: &Vec<(usize, usize)>, n: usize) -> (r: Option<Vec<usize>>)
    requires
        f@.len() == pieces(s@, 32).len(),
        forall|k: int| 0 <= k < f@.len() ==> f@[k].0 as int == pieces(s@, 32)[k].0 && f@[k].1 as int == pieces(s@, 32)[k].1,
    ensures
        match r {
            None => columns_spec(s@, pieces(s@, 32), n) is None,
            Some(v) => columns_spec(s@, pieces(s@, 32), n) == Some(v@),
        },
{
    let ghost ps = pieces(s@, 32);
    proof {
        lemma_pieces_shape(s@, 32);
    }
    let mut cols: Vec<usize> = Vec::new();
    let mut k: usize = 0;
    while k < f.len()
        invariant
            ps == pieces(s@, 32),
            f@.len() == ps.len(),
            forall|j: int| 0 <= j < f@.len() ==> f@[j].0 as int == ps[j].0 && f@[j].1 as int == ps[j].1,
            forall|j: int| 0 <= j < ps.len() ==> 0 <= #[trigger] ps[j].0 <= ps[j].1 <= s@.len(),
            k <= f@.len(),
            columns_spec(s@, ps.take(k as int), n) == Some(cols@),
        decreases f@.len() - k,
    {
        let (a, b) = f[k];
        proof {
            assert(ps.take(k as int + 1).drop_last() =~= ps.take(k as int));
            assert(ps.take(k as int + 1).last() == ps[k as int]);
        }
        let is_end = b - a == 2 && s[a] == 45 && s[a + 1] == 49;
        proof {
            let field = s@.subrange(a as int, b as int);
            if is_end {
                assert(field =~= seq![45u8, 49u8]);
            } else if field == seq![45u8, 49u8] {
                assert(field.len() == 2);
                assert(field[0] == s@[a as int]);
                assert(field[1] == s@[a as int + 1]);
            }
        }
        if !is_end {
            match parse_number(s, a, b) {
                Some(c) => {
                    if c < n {
                        cols.push(c);
                    } else {
                        proof {
                            assert(columns_spec(s@, ps.take(k as int + 1), n) is None);
                            lemma_columns_none_stays(s@, ps, n, k as int + 1);
                            assert(ps.take(ps.len() as int) =~= ps);
                        }
                        return None;
                    }
                },
                None => {
                    proof {
                        lemma_columns_none_stays(s@, ps, n, k as int + 1);
                        assert(ps.take(ps.len() as int) =~= ps);
                    }
                    return None;
                },
            }
        }
        k = k + 1;
    }
    proof {
        assert(ps.take(ps.len() as int) =~= ps);
    }
    Some(cols)
}

proof fn lemma_columns_below(s: Seq<u8>, ps: Seq<(int, int)>, n: usize)
    requires
        columns_spec(s, ps, n) is Some,
    ensures
        forall|k: int| 0 <= k < columns_spec(s, ps, n).unwrap().len() ==> columns_spec(s, ps, n).unwrap()[k] < n,
    decreases ps.len(),
{
    if ps.len() > 0 {
        lemma_columns_below(s, ps.drop_last(), n);
    }
}

proof fn lemma_columns_none_stays(s: Seq<u8>, ps: Seq<(int, int)>, n: usize, k: int)
    requires
        0 <= k <= ps.len(),
        columns_spec(s, ps.take(k), n) is None,
    ensures
        columns_spec(s, ps, n) is None,
    decreases ps.len() - k,
{
    if k < ps.len() {
        assert(ps.take(k + 1).drop_last() =~= ps.take(k));
        lemma_columns_none_stays(s, ps, n, k + 1);
    } else {
        assert(ps.take(k) =~= ps);
    }
}

/// Reads a row line of a matrix with `n` columns.
pub fn parse_row(line: &[u8], n: usize) -> (r: Option<(usize, Vec<usize>)>)
    ensures
        match r {
            None => row_spec(line@, n) is None,
            Some((id, cols)) => row_spec(line@, n) == Some((id, cols@)),
        },
{
    if line.len() < 4 {
        return None;
    }
    let rest = copy_range(line, 4, line.len());
    let mut colon: usize = 0;
    while colon < rest.len() && rest[colon] != 58
        invariant
            colon <= rest@.len(),
            forall|j: int| 0 <= j < colon ==> rest@[j] != 58,
        decreases rest@.len() - colon,
    {
        colon = colon + 1;
    }
    proof {
        lemma_first_index(rest@, 58, colon as int);
    }
    if colon + 2 > rest.len() {
        return None;
    }
    let id = parse_number(rest.as_slice(), 0, colon);
    let tail = copy_range(rest.as_slice(), colon + 2, rest.len());
    let f = split_at_byte(tail.as_slice(), 32);
    let cols = parse_columns(tail.as_slice(), &f, n);
    match (id, cols) {
        (Some(id), Some(cols)) => Some((id, cols)),
        _ => None,
    }
}

/// The lines of `text`: its pieces between newlines, without an empty last one.
pub open spec fn lines_of(text: Seq<u8>) -> Seq<(int, int)> {
    let p = pieces(text, 10);
    if p.last().0 == p.last().1 {
        p.drop_last()
    } else {
        p
    }
}

/// The column lists that the row lines `lines` of `text` give to a matrix of
/// `m` empty rows and `n` columns.
pub open spec fn rows_spec(text: Seq<u8>, lines: Seq<(int, int)>, m: usize, n: usize) -> Option<Seq<Seq<usize>>>
    decreases lines.len(),
{
    if lines.len() == 0 {
        Some(Seq::new(m as nat, |i: int| Seq::<usize>::empty()))
    } else {
        match rows_spec(text, lines.drop_last(), m, n) {
            None => None,
            Some(rows) => match row_spec(slice_of(text, lines.last()), n) {
                None => None,
                Some((id, cols)) => if id == usize::MAX {
                    None
                } else {
                    Some(add_row_spec(rows, id as int, cols))
                },
            },
        }
    }
}

/// The column count and the column lists of the matrix that `text` describes:
/// a header line, then row lines.
pub open spec fn load_spec(text: Seq<u8>) -> Option<(usize, Seq<Seq<usize>>)> {
    let ls = lines_of(text);
    if ls.len() == 0 {
        None
    } else {
        match header_spec(slice_of(text, ls[0])) {
            None => None,
            Some((m, n)) => match rows_spec(text, ls.drop_first(), m, n) {
                None => None,
                Some(rows) => Some((n, rows)),
            },
        }
    }
}

proof fn lemma_rows_none_stays(text: Seq<u8>, ls: Seq<(int, int)>, m: usize, n: usize, k: int)
    requires
        0 <= k <= ls.len(),
        rows_spec(text, ls.take(k), m, n) is None,
    ensures
        rows_spec(text, ls, m, n) is None,
    decreases ls.len() - k,
{
    if k < ls.len() {
        assert(ls.take(k + 1).drop_last() =~= ls.take(k));
        lemma_rows_none_stays(text, ls, m, n, k + 1);
    } else {
        assert(ls.take(k) =~= ls);
    }
}

/// Builds the matrix of unit weights that `text` describes, or `None` where
/// the text is malformed.
pub fn load(text: &[u8]) -> (r: Option<SMat>)
    ensures
        match r {
            None => load_spec(text@) is None,
            Some(h) => {
                &&& h.is_unit()
                &&& load_spec(text@) == Some((h.n, column_lists(h)))
            },
        },
{
    let mut ls = split_at_byte(text, 10);
    proof {
        lemma_pieces_shape(text@, 10);
    }
    let last = ls.len() - 1;
    if ls[last].0 == ls[last].1 {
        ls.pop();
    }
    let ghost lines = lines_of(text@);
    assert(ls@.len() == lines.len());
    assert(forall|k: int| 0 <= k < ls@.len() ==> ls@[k].0 as int == lines[k].0 && ls@[k].1 as int == lines[k].1);
    if ls.len() == 0 {
        return None;
    }
    let header = copy_range(text, ls[0].0, ls[0].1);
    let (m, n) = match parse_header(header.as_slice()) {
        Some(mn) => mn,
        None => {
            return None;
        },
    };
    let ghost body = lines.drop_first();
    let mut h = SMat::new(m, n);
    proof {
        assert forall|i: int| 0 <= i < m implies columns_of(h.row(i)) =~= Seq::<usize>::empty() by {}
        assert(column_lists(h) =~= Seq::new(m as nat, |i: int| Seq::<usize>::empty()));
        let p = pieces(text@, 10);
        assert forall|j: int| 0 <= j < lines.len() implies 0 <= #[trigger] lines[j].0 <= lines[j].1 <= text@.len() by {
            assert(lines[j] == p[j]);
        }
        assert(body.take(0).len() == 0);
    }
    let mut k: usize = 1;
    while k < ls.len()
        invariant
            1 <= k <= ls@.len(),
            ls@.len() == lines.len(),
            lines == lines_of(text@),
            header_spec(slice_of(text@, lines[0])) == Some((m, n)),
            body == lines.drop_first(),
            forall|j: int| 0 <= j < ls@.len() ==> ls@[j].0 as int == lines[j].0 && ls@[j].1 as int == lines[j].1,
            forall|j: int| 0 <= j < lines.len() ==> 0 <= #[trigger] lines[j].0 <= lines[j].1 <= text@.len(),
            h.wf(),
            h.is_unit(),
            h.n == n,
            rows_spec(text@, body.take(k - 1), m, n) == Some(column_lists(h)),
        decreases ls@.len() - k,
    {
        assert(0 <= lines[k as int].0 <= lines[k as int].1 <= text@.len());
        let line = copy_range(text, ls[k].0, ls[k].1);
        proof {
            assert(body.take(k as int).drop_last() =~= body.take(k - 1));
            assert(body.take(k as int).last() == lines[k as int]);
        }
        match parse_row(line.as_slice(), n) {
            Some((id, cols)) => {
                proof {
                    let rest = line@.subrange(4, line@.len() as int);
                    let colon = first_index(rest, 58);
                    let tail = rest.subrange(colon + 2, rest.len() as int);
                    lemma_columns_below(tail, pieces(tail, 32), n);
                }
                if id == usize::MAX {
                    proof {
                        lemma_rows_none_stays(text@, body, m, n, k as int);
                    }
                    return None;
                }
                h.add_row(id, &cols);
            },
            None => {
                proof {
                    lemma_rows_none_stays(text@, body, m, n, k as int);
                }
                return None;
            },
        }
        k = k + 1;
    }
    proof {
        assert(body.take(ls@.len() - 1) =~= body);
    }
    Some(h)
}

/// The decimal digits of `v`.
pub open spec fn digits(v: nat) -> Seq<u8>
    decreases v,
{
    if v < 10 {
        seq![(48 + v) as u8]
    } else {
        digits(v / 10).push((48 + v % 10) as u8)
    }
}

/// The bytes `SparseMatrix: `.
pub open spec fn title_bytes() -> Seq<u8> {
    seq![83u8, 112u8, 97u8, 114u8, 115u8, 101u8, 77u8, 97u8, 116u8, 114u8, 105u8, 120u8, 58u8, 32u8]
}

/// The bytes ` by `.
pub open spec fn by_bytes() -> Seq<u8> {
    seq![32u8, 98u8, 121u8, 32u8]
}

/// The bytes `row `.
pub open spec fn row_bytes() -> Seq<u8> {
    seq![114u8, 111u8, 119u8, 32u8]
}

/// The columns of a row, each followed by a space.
pub open spec fn cells_text(cells: Seq<Cell>) -> Seq<u8>
    decreases cells.len(),
{
    if cells.len() == 0 {
        Seq::empty()
    } else {
        cells_text(cells.drop_last()) + digits(cells.last().column as nat) + seq![32u8]
    }
}

/// The line of row `i`: `row <i>: <c1> .. <ck> -1`.
pub open spec fn row_text(i: nat, cells: Seq<Cell>) -> Seq<u8> {
    row_bytes() + digits(i) + seq![58u8, 32u8] + cells_text(cells) + seq![45u8, 49u8]
}

/// The lines of the first `k` rows of `h`, separated by newlines.
pub open spec fn rows_text(h: SMat, k: nat) -> Seq<u8>
    decreases k,
{
    if k == 0 {
        Seq::empty()
    } else if k == 1 {
        row_text(0, h.row(0))
    } else {
        rows_text(h, (k - 1) as nat) + seq![10u8] + row_text((k - 1) as nat, h.row(k - 1))
    }
}

/// The text of `h`: a header line with its dimensions, then one line per row
/// listing its columns.
pub open spec fn render_spec(h: SMat) -> Seq<u8> {
    title_bytes() + digits(h.m as nat) + by_bytes() + digits(h.n as nat) + seq![10u8] + rows_text(h, h.m as nat)
}

/// Appends the decimal digits of `v`.
fn push_digits(out: &mut Vec<u8>, v: usize)
    ensures
        final(out)@ == old(out)@ + digits(v as nat),
    decreases v,
{
    if v >= 10 {
        push_digits(out, v / 10);
    }
    out.push((48 + v % 10) as u8);
    proof {
        if v < 10 {
            assert(digits(v as nat) == seq![(48 + v) as u8]);
        }
    }
}

/// Appends each byte of `b`.
fn push_all(out: &mut Vec<u8>, bytes: &Vec<u8>)
    ensures
        final(out)@ == old(out)@ + bytes@,
{
    let ghost b = bytes@;
    let mut i: usize = 0;
    while i < bytes.len()
        invariant
            bytes@ == b,
            i <= b.len(),
            out@ == old(out)@ + b.take(i as int),
        decreases b.len() - i,
    {
        out.push(bytes[i]);
        proof {
            assert(b.take(i as int + 1) =~= b.take(i as int).push(b[i as int]));
        }
        i = i + 1;
    }
    proof {
        assert(b.take(b.len() as int) =~= b);
    }
}

/// Renders `h` as text in the form that `load` reads.
pub fn render(h: &SMat) -> (r: Vec<u8>)
    requires
        h.wf(),
    ensures
        r@ == render_spec(*h),
{
    let mut out: Vec<u8> = Vec::new();
    let title = vec![83u8, 112u8, 97u8, 114u8, 115u8, 101u8, 77u8, 97u8, 116u8, 114u8, 105u8, 120u8, 58u8, 32u8];
    assert(title@ == title_bytes());
    push_all(&mut out, &title);
    push_digits(&mut out, h.m);
    let by = vec![32u8, 98u8, 121u8, 32u8];
    assert(by@ == by_bytes());
    push_all(&mut out, &by);
    push_digits(&mut out, h.n);
    out.push(10);
    let ghost head = title_bytes() + digits(h.m as nat) + by_bytes() + digits(h.n as nat) + seq![10u8];
    assert(out@ =~= head);
    let word = vec![114u8, 111u8, 119u8, 32u8];
    assert(word@ == row_bytes());
    let mut i: usize = 0;
    while i < h.m
        invariant
            h.wf(),
            word@ == row_bytes(),
            i <= h.m,
            out@ == head + rows_text(*h, i as nat),
        decreases h.m - i,
    {
        let ghost before = out@;
        if i > 0 {
            out.push(10);
        }
        let ghost line_start = out@;
        push_all(&mut out, &word);
        push_digits(&mut out, i);
        out.push(58);
        out.push(32);
        let ghost mid = out@;
        let row = &h.rows[i];
        let mut k: usize = 0;
        while k < row.elements.len()
            invariant
                row.elements@ == h.row(i as int),
                k <= row.elements@.len(),
                out@ == mid + cells_text(row.elements@.take(k as int)),
            decreases row.elements@.len() - k,
        {
            push_digits(&mut out, row.elements[k].column);
            out.push(32);
            proof {
                assert(row.elements@.take(k as int + 1).drop_last() =~= row.elements@.take(k as int));
                assert(out@ =~= mid + cells_text(row.elements@.take(k as int + 1)));
            }
            k = k + 1;
        }
        out.push(45);
        out.push(49);
        proof {
            assert(row.elements@.take(row.elements@.len() as int) =~= row.elements@);
            assert(out@ =~= line_start + row_text(i as nat, h.row(i as int)));
            if i == 0 {
                assert(out@ =~= head + rows_text(*h, 1));
            } else {
                assert(out@ =~= head + rows_text(*h, (i + 1) as nat));
            }
        }
        i = i + 1;
    }
    out
}

} // verus!
