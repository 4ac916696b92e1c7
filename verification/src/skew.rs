//! Skew shapes (an outer diagram with an inner one removed) and their fillings.
use vstd::prelude::*;
use crate::cell::{Cell, cell_in, before};
use crate::diagram::{YoungDiagram, diagram_cells};
use crate::filling::Filling;
use crate::partition::includes;

verus! {

/// The cells of `cells` that lie outside the diagram with rows `inner`, in order.
pub open spec fn outside(cells: Seq<Cell>, inner: Seq<usize>) -> Seq<Cell>
    decreases cells.len(),
{
    if cells.len() == 0 {
        Seq::empty()
    } else {
        let t = outside(cells.drop_last(), inner);
        if cell_in(inner, cells.last()) {
            t
        } else {
            t.push(cells.last())
        }
    }
}

/// The cells of the skew shape `outer / inner`, row by row, left to right.
pub open spec fn skew_cells(outer: Seq<usize>, inner: Seq<usize>) -> Seq<Cell> {
    outside(diagram_cells(outer), inner)
}

/// The cells of `cells` in row `r`, in order.
pub open spec fn in_row(cells: Seq<Cell>, r: int) -> Seq<Cell>
    decreases cells.len(),
{
    if cells.len() == 0 {
        Seq::empty()
    } else {
        let t = in_row(cells.drop_last(), r);
        if cells.last().row == r {
            t.push(cells.last())
        } else {
            t
        }
    }
}

/// Reading order of the first `rows` rows: top to bottom, each row right to left.
pub open spec fn reading_order(cells: Seq<Cell>, rows: int) -> Seq<Cell>
    decreases rows,
{
    if rows <= 0 {
        Seq::empty()
    } else {
        reading_order(cells, rows - 1) + in_row(cells, rows).reverse()
    }
}

/// The values in the filled cells of `cs`, in order.
pub open spec fn filled_values(f: Map<Cell, usize>, cs: Seq<Cell>) -> Seq<usize>
    decreases cs.len(),
{
    if cs.len() == 0 {
        Seq::empty()
    } else {
        let t = filled_values(f, cs.drop_last());
        if f.dom().contains(cs.last()) {
            t.push(f[cs.last()])
        } else {
            t
        }
    }
}

/// The reading word of a filling of a skew shape.
pub open spec fn reading_word_of(cells: Seq<Cell>, rows: int, f: Map<Cell, usize>) -> Seq<usize> {
    filled_values(f, reading_order(cells, rows))
}

/// How many times `v` occurs in `s`.
pub open spec fn count_of(s: Seq<usize>, v: int) -> nat
    decreases s.len(),
{
    if s.len() == 0 {
        0
    } else {
        count_of(s.drop_last(), v) + (if s.last() == v {
            1nat
        } else {
            0nat
        })
    }
}

/// The largest letter, 0 for the empty word.
pub open spec fn seq_max(s: Seq<usize>) -> usize
    decreases s.len(),
{
    if s.len() == 0 {
        0
    } else if seq_max(s.drop_last()) < s.last() {
        s.last()
    } else {
        seq_max(s.drop_last())
    }
}

/// Every prefix has at least as many `k` as `k + 1`, for `k` from 1 to below the largest
/// letter.
pub open spec fn is_lattice(w: Seq<usize>) -> bool {
    forall|p: int, k: int|
        1 <= p <= w.len() && 1 <= k < seq_max(w) ==> #[trigger] count_of(w.take(p), k) >= #[trigger] count_of(
            w.take(p),
            k + 1,
        )
}

pub proof fn lemma_seq_max_bounds(s: Seq<usize>)
    ensures
        forall|i: int| 0 <= i < s.len() ==> #[trigger] s[i] <= seq_max(s),
    decreases s.len(),
{
    if s.len() > 0 {
        lemma_seq_max_bounds(s.drop_last());
        assert forall|i: int| 0 <= i < s.len() implies #[trigger] s[i] <= seq_max(s) by {
            if i < s.len() - 1 {
                assert(s.drop_last()[i] == s[i]);
            }
        }
    }
}

pub proof fn lemma_count_absent(s: Seq<usize>, v: int)
    requires
        forall|i: int| 0 <= i < s.len() ==> #[trigger] s[i] != v,
    ensures
        count_of(s, v) == 0,
    decreases s.len(),
{
    if s.len() > 0 {
        assert forall|i: int| 0 <= i < s.drop_last().len() implies #[trigger] s.drop_last()[i] != v by {
            assert(s.drop_last()[i] == s[i]);
        }
        lemma_count_absent(s.drop_last(), v);
    }
}

proof fn lemma_count_one(v: usize, k: int)
    ensures
        count_of(seq![v], k) == if v == k { 1nat } else { 0nat },
{
    assert(seq![v].drop_last() =~= Seq::<usize>::empty());
    assert(count_of(Seq::<usize>::empty(), k) == 0);
    assert(seq![v].last() == v);
}

/// The cells are listed row by row, left to right, each once.
pub open spec fn row_major(cells: Seq<Cell>) -> bool {
    forall|a: int, b: int| 0 <= a < b < cells.len() ==> before(#[trigger] cells[a], #[trigger] cells[b])
}

pub proof fn lemma_in_row(cells: Seq<Cell>, r: int)
    requires
        row_major(cells),
    ensures
        forall|c: Cell| #[trigger] in_row(cells, r).contains(c) <==> cells.contains(c) && c.row == r,
        forall|a: int| 0 <= a < in_row(cells, r).len() ==> #[trigger] in_row(cells, r)[a].row == r,
        forall|a: int, b: int|
            0 <= a < b < in_row(cells, r).len() ==> #[trigger] in_row(cells, r)[a].col < #[trigger] in_row(
                cells,
                r,
            )[b].col,
    decreases cells.len(),
{
    if cells.len() > 0 {
        let d = cells.drop_last();
        assert(row_major(d)) by {
            assert forall|a: int, b: int| 0 <= a < b < d.len() implies before(#[trigger] d[a], #[trigger] d[b]) by {
                assert(d[a] == cells[a] && d[b] == cells[b]);
            }
        }
        lemma_in_row(d, r);
        let t = in_row(d, r);
        let x = cells.last();
        assert forall|c: Cell| #[trigger] in_row(cells, r).contains(c) <==> cells.contains(c) && c.row == r by {
            if c == x && x.row == r {
                assert(t.push(x)[t.len() as int] == x);
                assert(cells[cells.len() - 1] == x);
            }
            if cells.contains(c) && c.row == r && c != x {
                let i = choose|i: int| 0 <= i < cells.len() && cells[i] == c;
                assert(d[i] == c);
                assert(d.contains(c));
                assert(t.contains(c));
                if x.row == r {
                    let k = choose|k: int| 0 <= k < t.len() && t[k] == c;
                    assert(t.push(x)[k] == c);
                }
            }
            if in_row(cells, r).contains(c) {
                if x.row == r && c == x {
                    assert(cells[cells.len() - 1] == x);
                } else {
                    if x.row == r {
                        let k = choose|k: int| 0 <= k < t.push(x).len() && t.push(x)[k] == c;
                        if k < t.len() {
                            assert(t[k] == c);
                        }
                    }
                    assert(t.contains(c));
                    let i = choose|i: int| 0 <= i < d.len() && d[i] == c;
                    assert(cells[i] == c);
                }
            }
        }
        if x.row == r {
            let u = t.push(x);
            assert forall|a: int, b: int| 0 <= a < b < u.len() implies #[trigger] u[a].col < #[trigger] u[b].col by {
                if b == u.len() - 1 {
                    assert(t.contains(u[a]));
                    let i = choose|i: int| 0 <= i < d.len() && d[i] == u[a];
                    assert(before(cells[i], cells[cells.len() - 1]));
                } else {
                    assert(u[a] == t[a] && u[b] == t[b]);
                }
            }
            assert forall|a: int| 0 <= a < u.len() implies #[trigger] u[a].row == r by {
                if a < t.len() {
                    assert(u[a] == t[a]);
                }
            }
        }
    }
}

/// The reading order of the first `rows` rows holds each of their cells once, rows from
/// top to bottom and each row from right to left.
pub proof fn lemma_reading_order(cells: Seq<Cell>, rows: int)
    requires
        row_major(cells),
    ensures
        forall|c: Cell| #[trigger] reading_order(cells, rows).contains(c) <==> cells.contains(c) && 1 <= c.row <= rows,
        forall|a: int, b: int|
            0 <= a < b < reading_order(cells, rows).len() ==> (#[trigger] reading_order(cells, rows)[a]).row
                < (#[trigger] reading_order(cells, rows)[b]).row || (reading_order(cells, rows)[a].row
                == reading_order(cells, rows)[b].row && reading_order(cells, rows)[a].col > reading_order(
                cells,
                rows,
            )[b].col),
    decreases rows,
{
    if rows > 0 {
        lemma_reading_order(cells, rows - 1);
        lemma_in_row(cells, rows);
        let p = reading_order(cells, rows - 1);
        let q = in_row(cells, rows).reverse();
        let ro = reading_order(cells, rows);
        assert(ro == p + q);
        assert forall|c: Cell| #[trigger] ro.contains(c) <==> cells.contains(c) && 1 <= c.row <= rows by {
            if ro.contains(c) {
                let k = choose|k: int| 0 <= k < ro.len() && ro[k] == c;
                if k < p.len() {
                    assert(p[k] == c);
                    assert(p.contains(c));
                } else {
                    let m = in_row(cells, rows).len() - 1 - (k - p.len());
                    assert(in_row(cells, rows)[m] == c);
                    assert(in_row(cells, rows).contains(c));
                }
            }
            if cells.contains(c) && 1 <= c.row <= rows {
                if c.row < rows {
                    assert(p.contains(c));
                    let k = choose|k: int| 0 <= k < p.len() && p[k] == c;
                    assert(ro[k] == c);
                } else {
                    assert(in_row(cells, rows).contains(c));
                    let m = choose|m: int| 0 <= m < in_row(cells, rows).len() && in_row(cells, rows)[m] == c;
                    let k = p.len() + (in_row(cells, rows).len() - 1 - m);
                    assert(ro[k] == c);
                }
            }
        }
        assert forall|a: int, b: int| 0 <= a < b < ro.len() implies (#[trigger] ro[a]).row < (#[trigger] ro[b]).row
            || (ro[a].row == ro[b].row && ro[a].col > ro[b].col) by {
            let ir = in_row(cells, rows);
            if b < p.len() {
                assert(ro[a] == p[a] && ro[b] == p[b]);
            } else if a >= p.len() {
                let ma = ir.len() - 1 - (a - p.len());
                let mb = ir.len() - 1 - (b - p.len());
                assert(ro[a] == ir[ma] && ro[b] == ir[mb]);
                assert(ir[mb].col < ir[ma].col);
            } else {
                assert(ro[a] == p[a]);
                assert(p.contains(p[a]));
                let mb = ir.len() - 1 - (b - p.len());
                assert(ro[b] == ir[mb]);
            }
        }
    }
}

/// A word is a lattice word exactly when each of its prefixes holds at least as many
/// letters `k` as letters `k + 1`, for every `k >= 1`; so a word that starts with a letter
/// above 1 is none.
pub proof fn lemma_lattice_prefixes(w: Seq<usize>)
    ensures
        is_lattice(w) <==> forall|p: int, k: int|
            1 <= p <= w.len() && 1 <= k ==> #[trigger] count_of(w.take(p), k) >= #[trigger] count_of(
                w.take(p),
                k + 1,
            ),
        w.len() > 0 && w[0] > 1 ==> !is_lattice(w),
{
    lemma_seq_max_bounds(w);
    if is_lattice(w) {
        assert forall|p: int, k: int| 1 <= p <= w.len() && 1 <= k implies #[trigger] count_of(w.take(p), k)
            >= #[trigger] count_of(w.take(p), k + 1) by {
            if k >= seq_max(w) {
                assert forall|i: int| 0 <= i < w.take(p).len() implies #[trigger] w.take(p)[i] != k + 1 by {
                    assert(w.take(p)[i] == w[i]);
                }
                lemma_count_absent(w.take(p), k + 1);
            }
        }
    }
    if w.len() > 0 && w[0] > 1 {
        let k = w[0] - 1;
        assert(w.take(1) =~= seq![w[0]]);
        lemma_count_one(w[0], k);
        lemma_count_one(w[0], k + 1);
        assert(count_of(w.take(1), k) < count_of(w.take(1), k + 1));
    }
}

pub proof fn lemma_outside_in(cells: Seq<Cell>, inner: Seq<usize>)
    ensures
        forall|k: int|
            0 <= k < outside(cells, inner).len() ==> cells.contains(#[trigger] outside(cells, inner)[k])
                && !cell_in(inner, outside(cells, inner)[k]),
        forall|k: int|
            0 <= k < cells.len() && !cell_in(inner, cells[k]) ==> outside(cells, inner).contains(
                #[trigger] cells[k],
            ),
    decreases cells.len(),
{
    if cells.len() > 0 {
        let t = cells.drop_last();
        lemma_outside_in(t, inner);
        let o = outside(cells, inner);
        assert forall|k: int| 0 <= k < o.len() implies cells.contains(#[trigger] o[k]) && !cell_in(
            inner,
            o[k],
        ) by {
            if k < outside(t, inner).len() {
                assert(o[k] == outside(t, inner)[k]);
                let j = choose|j: int| 0 <= j < t.len() && t[j] == o[k];
                assert(cells[j] == o[k]);
            } else {
                assert(cells[cells.len() - 1] == o[k]);
            }
        }
        assert forall|k: int| 0 <= k < cells.len() && !cell_in(inner, cells[k]) implies o.contains(
            #[trigger] cells[k],
        ) by {
            if k < t.len() {
                assert(t[k] == cells[k]);
                let j = choose|j: int| 0 <= j < outside(t, inner).len() && outside(t, inner)[j] == cells[k];
                assert(o[j] == cells[k]);
            } else {
                assert(o[o.len() - 1] == cells[k]);
            }
        }
    }
}

/// A skew shape: the cells of `outer` that are not in `inner`.
#[derive(Debug, PartialEq, Eq)]
pub struct SkewShape {
    outer: YoungDiagram,
    inner: YoungDiagram,
    cells: Vec<Cell>,
}

impl SkewShape {
    #[verifier::type_invariant]
    pub closed spec fn valid(self) -> bool {
        &&& includes(self.outer@, self.inner@)
        &&& self.cells@ == skew_cells(self.outer@, self.inner@)
    }

    pub closed spec fn outer_view(self) -> Seq<usize> {
        self.outer@
    }

    pub closed spec fn inner_view(self) -> Seq<usize> {
        self.inner@
    }

    pub broadcast proof fn lemma_valid(sh: SkewShape)
        requires
            #[trigger] sh.valid(),
        ensures
            includes(sh.outer_view(), sh.inner_view()),
    {
    }

    /// The skew shape `outer / inner`; refused when `outer` does not contain `inner`.
    pub fn new(outer: YoungDiagram, inner: YoungDiagram) -> (r: Result<Self, &'static str>)
        ensures
            r is Ok <==> includes(outer@, inner@),
            r matches Ok(sh) ==> sh.outer_view() == outer@ && sh.inner_view() == inner@,
            r matches Err(e) ==> e@ == "外分拆必须包含内分拆"@,
    {
        if !outer.partition().contains(inner.partition()) {
            return Err("外分拆必须包含内分拆");
        }
        outer.facts();
        let all = outer.cells();
        proof {
            crate::diagram::lemma_diagram_cells_in(outer@);
        }
        let mut cells: Vec<Cell> = Vec::new();
        let mut k: usize = 0;
        while k < all.len()
            invariant
                k <= all@.len(),
                all@ == diagram_cells(outer@),
                forall|m: int| 0 <= m < all@.len() ==> (#[trigger] all@[m]).row >= 1,
                cells@ == outside(all@.take(k as int), inner@),
            decreases all.len() - k,
        {
            proof {
                assert(all@.take(k + 1).drop_last() =~= all@.take(k as int));
            }
            if !all[k].is_in(&inner) {
                cells.push(all[k]);
            }
            k = k + 1;
        }
        proof {
            assert(all@.take(k as int) =~= all@);
        }
        Ok(SkewShape { outer, inner, cells })
    }

    pub closed spec fn cells_view(self) -> Seq<Cell> {
        self.cells@
    }

    /// Whether `cell` is in the skew shape.
    pub open spec fn spec_contains(self, cell: Cell) -> bool {
        cell_in(self.outer_view(), cell) && !cell_in(self.inner_view(), cell)
    }

    pub fn has_right(&self, cell: &Cell) -> (r: bool)
        requires
            cell.row >= 1,
            cell.col < usize::MAX,
        ensures
            r == self.spec_contains(Cell { row: cell.row, col: (cell.col + 1) as usize }),
    {
        self.contains(&Cell::new(cell.row, cell.col + 1))
    }

    pub fn has_down(&self, cell: &Cell) -> (r: bool)
        requires
            cell.row < usize::MAX,
        ensures
            r == self.spec_contains(Cell { row: (cell.row + 1) as usize, col: cell.col }),
    {
        self.contains(&Cell::new(cell.row + 1, cell.col))
    }

    /// The cells, row by row, left to right.
    pub fn cells(&self) -> (r: &[Cell])
        ensures
            r@ == skew_cells(self.outer_view(), self.inner_view()),
            r@ == self.cells_view(),
    {
        proof {
            use_type_invariant(self);
        }
        self.cells.as_slice()
    }

    /// The number of cells.
    pub fn size(&self) -> (r: usize)
        ensures
            r == skew_cells(self.outer_view(), self.inner_view()).len(),
    {
        proof {
            use_type_invariant(self);
        }
        self.cells.len()
    }

    pub fn outer(&self) -> (r: &YoungDiagram)
        ensures
            r@ == self.outer_view(),
    {
        &self.outer
    }

    pub fn inner(&self) -> (r: &YoungDiagram)
        ensures
            r@ == self.inner_view(),
    {
        &self.inner
    }

    pub fn contains(&self, cell: &Cell) -> (r: bool)
        requires
            cell.row >= 1,
        ensures
            r == self.spec_contains(*cell),
    {
        cell.is_in(&self.outer) && !cell.is_in(&self.inner)
    }

    pub fn has_left(&self, cell: &Cell) -> (r: bool)
        requires
            cell.col > 1 ==> cell.row >= 1,
        ensures
            r == (cell.col > 1 && self.spec_contains(Cell { row: cell.row, col: (cell.col - 1) as usize })),
    {
        cell.col > 1 && self.contains(&Cell::new(cell.row, cell.col - 1))
    }

    pub fn has_up(&self, cell: &Cell) -> (r: bool)
        ensures
            r == (cell.row > 1 && self.spec_contains(Cell { row: (cell.row - 1) as usize, col: cell.col })),
    {
        cell.row > 1 && self.contains(&Cell::new(cell.row - 1, cell.col))
    }
}

/// The reading word of `filling` on `shape`: rows from top to bottom, each read from right
/// to left, skipping empty cells.
pub fn reading_word(shape: &SkewShape, filling: &Filling<usize>) -> (r: Vec<usize>)
    ensures
        r@ == reading_word_of(shape.cells_view(), shape.outer_view().len() as int, filling@),
{
    let cells = shape.cells();
    let max_row = shape.outer().num_rows();
    let mut word: Vec<usize> = Vec::new();
    let mut i: usize = 0;
    while i < max_row
        invariant
            i <= max_row,
            max_row == shape.outer_view().len(),
            cells@ == shape.cells_view(),
            word@ == filled_values(filling@, reading_order(cells@, i as int)),
        decreases max_row - i,
    {
        let r = i + 1;
        let mut row_cells: Vec<Cell> = Vec::new();
        let mut k: usize = 0;
        while k < cells.len()
            invariant
                k <= cells@.len(),
                row_cells@ == in_row(cells@.take(k as int), r as int),
            decreases cells.len() - k,
        {
            proof {
                assert(cells@.take(k + 1).drop_last() =~= cells@.take(k as int));
            }
            if cells[k].row == r {
                row_cells.push(cells[k]);
            }
            k = k + 1;
        }
        proof {
            assert(cells@.take(k as int) =~= cells@);
        }
        let ghost base = word@;
        let ghost rev = row_cells@.reverse();
        let mut m: usize = row_cells.len();
        while m > 0
            invariant
                m <= row_cells@.len(),
                rev == row_cells@.reverse(),
                word@ == base + filled_values(filling@, rev.take(row_cells@.len() - m)),
            decreases m,
        {
            m = m - 1;
            let cell = row_cells[m];
            proof {
                let t = rev.take(row_cells@.len() - m);
                assert(t.drop_last() =~= rev.take(row_cells@.len() - m - 1));
                assert(t.last() == cell);
            }
            match filling.get(&cell) {
                Some(v) => {
                    word.push(*v);
                },
                None => {},
            }
            proof {
                assert(word@ =~= base + filled_values(filling@, rev.take(row_cells@.len() - m)));
            }
        }
        proof {
            assert(rev.take(row_cells@.len() as int) =~= rev);
            lemma_filled_values_concat(filling@, reading_order(cells@, r - 1), rev);
            assert(reading_order(cells@, r as int) == reading_order(cells@, r - 1) + rev);
        }
        i = i + 1;
    }
    word
}

pub proof fn lemma_filled_values_concat(f: Map<Cell, usize>, a: Seq<Cell>, b: Seq<Cell>)
    ensures
        filled_values(f, a + b) == filled_values(f, a) + filled_values(f, b),
    decreases b.len(),
{
    if b.len() == 0 {
        assert(a + b =~= a);
        assert(filled_values(f, a) + filled_values(f, b) =~= filled_values(f, a));
    } else {
        lemma_filled_values_concat(f, a, b.drop_last());
        assert((a + b).drop_last() =~= a + b.drop_last());
        assert((a + b).last() == b.last());
        if f.dom().contains(b.last()) {
            assert(filled_values(f, a + b) =~= filled_values(f, a) + filled_values(f, b));
        } else {
            assert(filled_values(f, a + b) =~= filled_values(f, a) + filled_values(f, b));
        }
    }
}

/// How many times `v` occurs among the first `len` letters of `word`.
fn count_prefix(word: &Vec<usize>, len: usize, v: usize) -> (r: usize)
    requires
        len <= word@.len(),
    ensures
        r == count_of(word@.take(len as int), v as int),
{
    let mut c: usize = 0;
    let mut i: usize = 0;
    while i < len
        invariant
            i <= len,
            len <= word@.len(),
            c == count_of(word@.take(i as int), v as int),
            c <= i,
        decreases len - i,
    {
        proof {
            assert(word@.take(i + 1).drop_last() =~= word@.take(i as int));
        }
        if word[i] == v {
            c = c + 1;
        }
        i = i + 1;
    }
    c
}

/// The largest letter of `word`, 0 for the empty word.
fn max_letter(word: &Vec<usize>) -> (r: usize)
    ensures
        r == seq_max(word@),
{
    let mut mx: usize = 0;
    let mut i: usize = 0;
    while i < word.len()
        invariant
            i <= word@.len(),
            mx == seq_max(word@.take(i as int)),
        decreases word.len() - i,
    {
        proof {
            assert(word@.take(i + 1).drop_last() =~= word@.take(i as int));
        }
        if mx < word[i] {
            mx = word[i];
        }
        i = i + 1;
    }
    proof {
        assert(word@.take(i as int) =~= word@);
    }
    mx
}

/// Whether every prefix of `word` has at least as many `k` as `k + 1`, for each `k` from 1
/// to below the largest letter.
pub fn is_lattice_word(word: &Vec<usize>) -> (r: bool)
    ensures
        r == is_lattice(word@),
        r <==> forall|p: int, k: int|
            1 <= p <= word@.len() && 1 <= k ==> #[trigger] count_of(word@.take(p), k) >= #[trigger] count_of(
                word@.take(p),
                k + 1,
            ),
{
    proof {
        lemma_lattice_prefixes(word@);
    }
    if word.len() == 0 {
        return true;
    }
    let max_val = max_letter(word);
    let mut q: usize = 0;
    while q < word.len()
        invariant
            q <= word@.len(),
            max_val == seq_max(word@),
            forall|p: int, k: int|
                1 <= p <= q && 1 <= k < max_val ==> #[trigger] count_of(word@.take(p), k) >= #[trigger] count_of(
                    word@.take(p),
                    k + 1,
                ),
        decreases word@.len() - q,
    {
        let p = q + 1;
        let mut k: usize = 1;
        while k < max_val
            invariant
                1 <= k <= max_val || (max_val == 0 && k == 1),
                p == q + 1,
                p <= word@.len(),
                max_val == seq_max(word@),
                forall|pp: int, j: int|
                    1 <= pp <= q && 1 <= j < max_val ==> #[trigger] count_of(word@.take(pp), j) >= #[trigger] count_of(
                        word@.take(pp),
                        j + 1,
                    ),
                forall|j: int|
                    1 <= j < k ==> #[trigger] count_of(word@.take(p as int), j) >= count_of(
                        word@.take(p as int),
                        j + 1,
                    ),
            decreases max_val - k,
        {
            let ck = count_prefix(word, p, k);
            let ck1 = count_prefix(word, p, k + 1);
            if ck < ck1 {
                return false;
            }
            k = k + 1;
        }
        q = q + 1;
    }
    true
}

impl Clone for SkewShape {
    fn clone(&self) -> (res: Self)
        ensures
            res.outer_view() == self.outer_view(),
            res.inner_view() == self.inner_view(),
            res.cells_view() == self.cells_view(),
    {
        proof {
            use_type_invariant(self);
        }
        let mut cells: Vec<Cell> = Vec::new();
        let mut i: usize = 0;
        while i < self.cells.len()
            invariant
                i <= self.cells.len(),
                cells@ =~= self.cells@.take(i as int),
            decreases self.cells.len() - i,
        {
            cells.push(self.cells[i]);
            i = i + 1;
        }
        proof {
            assert(self.cells@.take(i as int) =~= self.cells@);
        }
        SkewShape { outer: self.outer.clone(), inner: self.inner.clone(), cells }
    }
}

/// A filling of a skew shape whose rows weakly increase and columns strictly increase
/// (when the caller says so: nothing is checked).
#[derive(Debug)]
pub struct SemiStandardSkewTableau {
    shape: SkewShape,
    filling: Filling<usize>,
}

impl Clone for SemiStandardSkewTableau {
    fn clone(&self) -> (res: Self)
        ensures
            res.shape_view().outer_view() == self.shape_view().outer_view(),
            res.shape_view().inner_view() == self.shape_view().inner_view(),
            res.shape_view().cells_view() == self.shape_view().cells_view(),
            res.filling_view() == self.filling_view(),
    {
        SemiStandardSkewTableau { shape: self.shape.clone(), filling: self.filling.clone() }
    }
}

impl SemiStandardSkewTableau {
    pub closed spec fn shape_view(self) -> SkewShape {
        self.shape
    }

    pub closed spec fn filling_view(self) -> Map<Cell, usize> {
        self.filling@
    }

    /// Wraps a filling without checking it.
    pub fn from_trusted(shape: SkewShape, filling: Filling<usize>) -> (r: Self)
        ensures
            r.shape_view() == shape,
            r.filling_view() == filling@,
    {
        SemiStandardSkewTableau { shape, filling }
    }

    pub fn shape(&self) -> (r: &SkewShape)
        ensures
            *r == self.shape_view(),
    {
        &self.shape
    }

    pub fn get(&self, cell: &Cell) -> (r: Option<&usize>)
        ensures
            r == (if self.filling_view().dom().contains(*cell) {
                Some(&self.filling_view()[*cell])
            } else {
                None::<&usize>
            }),
    {
        self.filling.get(cell)
    }

    /// The reading word: rows from top to bottom, each read from right to left.
    pub fn reading_word(&self) -> (r: Vec<usize>)
        ensures
            r@ == reading_word_of(
                self.shape_view().cells_view(),
                self.shape_view().outer_view().len() as int,
                self.filling_view(),
            ),
    {
        reading_word(&self.shape, &self.filling)
    }

    /// Whether the reading word is a lattice word.
    pub fn is_lattice_word(&self) -> (r: bool)
        ensures
            r == is_lattice(
                reading_word_of(
                    self.shape_view().cells_view(),
                    self.shape_view().outer_view().len() as int,
                    self.filling_view(),
                ),
            ),
    {
        let word = self.reading_word();
        is_lattice_word(&word)
    }
}

} // verus!
