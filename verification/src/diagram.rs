//! Young diagrams: a partition drawn as left-justified rows of cells.
use vstd::prelude::*;
use crate::cell::{Cell, cell_in, hook_len, in_shape, before};
use crate::filling::Filling;
use crate::render::{draw, drawing, grid_row, grid_width, terminate_lines, terminated_lines, trim_spaces,
    text_views};
use crate::text::string_from_chars;
use crate::partition::{Partition, is_partition, nonincreasing, part_at, seq_sum, includes};

verus! {

broadcast use Partition::lemma_valid;

/// The number of parts that are at least `j`: the height of column `j`.
pub open spec fn count_at_least(s: Seq<usize>, j: int) -> nat
    decreases s.len(),
{
    if s.len() == 0 {
        0
    } else {
        count_at_least(s.drop_last(), j) + (if s.last() >= j {
            1nat
        } else {
            0nat
        })
    }
}

/// The conjugate partition: the column heights, from the first column on.
pub open spec fn conjugate_parts(s: Seq<usize>) -> Seq<usize> {
    Seq::new(part_at(s, 0) as nat, |j: int| count_at_least(s, j + 1) as usize)
}

/// The cells of row `r` when it has `len` cells, left to right.
pub open spec fn row_cells(r: int, len: int) -> Seq<Cell> {
    Seq::new(len as nat, |c: int| Cell { row: r as usize, col: (c + 1) as usize })
}

/// All cells of the diagram with row lengths `s`, row by row, left to right.
pub open spec fn diagram_cells(s: Seq<usize>) -> Seq<Cell>
    decreases s.len(),
{
    if s.len() == 0 {
        Seq::empty()
    } else {
        diagram_cells(s.drop_last()) + row_cells(s.len() as int, s.last() as int)
    }
}

/// The count is the length of the prefix of parts that reach `j`.
pub proof fn lemma_count_prefix(s: Seq<usize>, j: int)
    requires
        nonincreasing(s),
    ensures
        count_at_least(s, j) <= s.len(),
        forall|i: int| 0 <= i < count_at_least(s, j) ==> s[i] >= j,
        forall|i: int| count_at_least(s, j) <= i < s.len() ==> s[i] < j,
    decreases s.len(),
{
    if s.len() > 0 {
        let t = s.drop_last();
        assert(nonincreasing(t)) by {
            assert forall|a: int, b: int| 0 <= a <= b < t.len() implies t[b] <= t[a] by {
                assert(t[a] == s[a] && t[b] == s[b]);
            }
        }
        lemma_count_prefix(t, j);
        let ct = count_at_least(t, j) as int;
        if s.last() >= j {
            assert forall|i: int| 0 <= i < s.len() implies s[i] >= j by {
                assert(s[i] >= s[s.len() - 1]);
            }
            if ct < t.len() {
                assert(t[ct] == s[ct]);
            }
            assert(count_at_least(s, j) == s.len());
        } else {
            assert(count_at_least(s, j) == ct);
            assert forall|i: int| 0 <= i < ct implies s[i] >= j by {
                assert(t[i] == s[i]);
            }
            assert forall|i: int| ct <= i < s.len() implies s[i] < j by {
                if i < t.len() {
                    assert(t[i] == s[i]);
                }
            }
        }
    }
}

/// The count is fixed by where the parts drop below `j`.
pub proof fn lemma_count_unique(s: Seq<usize>, j: int, c: int)
    requires
        nonincreasing(s),
        0 <= c <= s.len(),
        forall|i: int| 0 <= i < c ==> s[i] >= j,
        forall|i: int| c <= i < s.len() ==> s[i] < j,
    ensures
        count_at_least(s, j) == c,
{
    lemma_count_prefix(s, j);
    let k = count_at_least(s, j) as int;
    if k < c {
        assert(s[k] >= j);
    } else if k > c {
        assert(s[c] < j);
    }
}

pub proof fn lemma_conjugate_partition(s: Seq<usize>)
    requires
        is_partition(s),
        s.len() <= usize::MAX,
    ensures
        is_partition(conjugate_parts(s)),
        conjugate_parts(s).len() == part_at(s, 0),
        forall|j: int|
            0 <= j < conjugate_parts(s).len() ==> #[trigger] conjugate_parts(s)[j] == count_at_least(
                s,
                j + 1,
            ),
{
    let c = conjugate_parts(s);
    assert forall|j: int| 0 <= j < c.len() implies #[trigger] c[j] == count_at_least(s, j + 1) by {
        lemma_count_prefix(s, j + 1);
    }
    assert forall|a: int, b: int| 0 <= a <= b < c.len() implies c[b] <= c[a] by {
        lemma_count_prefix(s, a + 1);
        lemma_count_prefix(s, b + 1);
        let cb = count_at_least(s, b + 1) as int;
        if cb > 0 {
            assert(s[cb - 1] >= b + 1);
        }
    }
    assert forall|j: int| 0 <= j < c.len() implies c[j] > 0 by {
        lemma_count_prefix(s, j + 1);
        assert(s[0] >= j + 1);
    }
}

/// Conjugating twice gives the partition back.
pub proof fn lemma_conjugate_involution(s: Seq<usize>)
    requires
        is_partition(s),
        s.len() <= usize::MAX,
    ensures
        conjugate_parts(conjugate_parts(s)) == s,
{
    let c = conjugate_parts(s);
    lemma_conjugate_partition(s);
    assert(c.len() <= usize::MAX) by {
        if s.len() > 0 {
            assert(s[0] <= usize::MAX);
        }
    }
    lemma_conjugate_partition(c);
    let cc = conjugate_parts(c);
    // The first column is as tall as the number of rows.
    assert(cc.len() == s.len()) by {
        if s.len() > 0 {
            lemma_count_unique(s, 1, s.len() as int);
            assert(c[0] == count_at_least(s, 1));
        }
    }
    assert forall|i: int| 0 <= i < s.len() implies cc[i] == s[i] by {
        assert(cc[i] == count_at_least(c, i + 1));
        assert forall|j: int| 0 <= j < s[i] as int implies c[j] >= i + 1 by {
            assert(c[j] == count_at_least(s, j + 1));
            lemma_count_prefix(s, j + 1);
            if count_at_least(s, j + 1) <= i {
                assert(s[i] < j + 1);
            }
        }
        assert forall|j: int| s[i] as int <= j < c.len() implies c[j] < i + 1 by {
            assert(c[j] == count_at_least(s, j + 1));
            lemma_count_prefix(s, j + 1);
            if count_at_least(s, j + 1) > i {
                assert(s[i] >= j + 1);
            }
        }
        assert(s[i] <= s[0]);
        lemma_count_unique(c, i + 1, s[i] as int);
    }
    assert(cc =~= s);
}

/// Containment is kept by conjugation.
proof fn lemma_conjugate_includes_one_way(a: Seq<usize>, b: Seq<usize>)
    requires
        is_partition(a),
        is_partition(b),
        a.len() <= usize::MAX,
        b.len() <= usize::MAX,
        includes(a, b),
    ensures
        includes(conjugate_parts(a), conjugate_parts(b)),
{
    lemma_conjugate_partition(a);
    lemma_conjugate_partition(b);
    let ca = conjugate_parts(a);
    let cb = conjugate_parts(b);
    assert forall|j: int| 0 <= j implies #[trigger] part_at(cb, j) <= part_at(ca, j) by {
        if j < cb.len() {
            assert(part_at(b, 0) <= part_at(a, 0));
            lemma_count_prefix(a, j + 1);
            lemma_count_prefix(b, j + 1);
            let kb = count_at_least(b, j + 1) as int;
            let ka = count_at_least(a, j + 1) as int;
            if kb > ka {
                assert(b[ka] >= j + 1);
                assert(part_at(b, ka) <= part_at(a, ka));
            }
        }
    }
}

/// One partition contains another exactly when the conjugate of the first contains
/// the conjugate of the second.
pub proof fn lemma_conjugate_includes(a: Seq<usize>, b: Seq<usize>)
    requires
        is_partition(a),
        is_partition(b),
        a.len() <= usize::MAX,
        b.len() <= usize::MAX,
    ensures
        includes(a, b) <==> includes(conjugate_parts(a), conjugate_parts(b)),
{
    if includes(a, b) {
        lemma_conjugate_includes_one_way(a, b);
    }
    if includes(conjugate_parts(a), conjugate_parts(b)) {
        lemma_conjugate_partition(a);
        lemma_conjugate_partition(b);
        assert(conjugate_parts(a).len() <= usize::MAX) by {
            if a.len() > 0 {
                assert(a[0] <= usize::MAX);
            }
        }
        assert(conjugate_parts(b).len() <= usize::MAX) by {
            if b.len() > 0 {
                assert(b[0] <= usize::MAX);
            }
        }
        lemma_conjugate_includes_one_way(conjugate_parts(a), conjugate_parts(b));
        lemma_conjugate_involution(a);
        lemma_conjugate_involution(b);
    }
}

/// Sum of the parts, each cut off at `n`.
pub open spec fn capped_sum(s: Seq<usize>, n: int) -> int
    decreases s.len(),
{
    if s.len() == 0 {
        0
    } else {
        capped_sum(s.drop_last(), n) + (if s.last() < n {
            s.last() as int
        } else {
            n
        })
    }
}

proof fn lemma_capped_sum_step(s: Seq<usize>, n: int)
    requires
        n >= 0,
    ensures
        capped_sum(s, n + 1) == capped_sum(s, n) + count_at_least(s, n + 1),
    decreases s.len(),
{
    if s.len() > 0 {
        lemma_capped_sum_step(s.drop_last(), n);
    }
}

proof fn lemma_capped_sum_full(s: Seq<usize>, n: int)
    requires
        forall|i: int| 0 <= i < s.len() ==> s[i] <= n,
    ensures
        capped_sum(s, n) == seq_sum(s),
    decreases s.len(),
{
    if s.len() > 0 {
        lemma_capped_sum_full(s.drop_last(), n);
    }
}

proof fn lemma_column_sums(s: Seq<usize>, n: int)
    requires
        0 <= n,
        s.len() <= usize::MAX,
    ensures
        seq_sum(Seq::new(n as nat, |j: int| count_at_least(s, j + 1) as usize)) == capped_sum(s, n),
    decreases n,
{
    let f = |j: int| count_at_least(s, j + 1) as usize;
    if n == 0 {
        assert(capped_sum(s, 0) == 0) by {
            lemma_capped_zero(s);
        }
    } else {
        lemma_column_sums(s, n - 1);
        assert(Seq::new(n as nat, f).drop_last() =~= Seq::new((n - 1) as nat, f));
        lemma_capped_sum_step(s, n - 1);
        lemma_count_le_len(s, n);
    }
}

proof fn lemma_capped_zero(s: Seq<usize>)
    ensures
        capped_sum(s, 0) == 0,
    decreases s.len(),
{
    if s.len() > 0 {
        lemma_capped_zero(s.drop_last());
    }
}

proof fn lemma_count_le_len(s: Seq<usize>, j: int)
    ensures
        count_at_least(s, j) <= s.len(),
    decreases s.len(),
{
    if s.len() > 0 {
        lemma_count_le_len(s.drop_last(), j);
    }
}

/// Conjugating transposes the diagram: cell (`r`, `c`) is in `s` exactly when (`c`, `r`)
/// is in its conjugate, so the rows of one are the columns of the other.
pub proof fn lemma_conjugate_transposes(s: Seq<usize>)
    requires
        is_partition(s),
        s.len() <= usize::MAX,
    ensures
        conjugate_parts(s).len() == part_at(s, 0),
        part_at(conjugate_parts(s), 0) == s.len(),
        forall|r: usize, c: usize|
            in_shape(s, Cell { row: r, col: c }) <==> #[trigger] in_shape(
                conjugate_parts(s),
                Cell { row: c, col: r },
            ),
{
    let t = conjugate_parts(s);
    lemma_conjugate_partition(s);
    if s.len() > 0 {
        lemma_count_prefix(s, 1);
        lemma_count_unique(s, 1, s.len() as int);
        assert(t[0] == count_at_least(s, 1));
    }
    assert forall|r: usize, c: usize|
        in_shape(s, Cell { row: r, col: c }) <==> #[trigger] in_shape(t, Cell { row: c, col: r }) by {
        if r >= 1 && c >= 1 {
            lemma_count_prefix(s, c as int);
            if in_shape(s, Cell { row: r, col: c }) {
                assert(s[r - 1] <= s[0]);
                assert(c <= t.len());
                assert(t[c - 1] == count_at_least(s, c as int));
                assert(r <= count_at_least(s, c as int));
            }
            if in_shape(t, Cell { row: c, col: r }) {
                assert(t[c - 1] == count_at_least(s, c as int));
                assert(s[r - 1] >= c);
            }
        }
    }
}

/// Conjugation keeps the number of cells.
pub proof fn lemma_conjugate_size(s: Seq<usize>)
    requires
        is_partition(s),
        s.len() <= usize::MAX,
    ensures
        seq_sum(conjugate_parts(s)) == seq_sum(s),
{
    lemma_column_sums(s, part_at(s, 0));
    assert forall|i: int| 0 <= i < s.len() implies s[i] <= part_at(s, 0) by {}
    lemma_capped_sum_full(s, part_at(s, 0));
}

/// The number of cells is the sum of the parts.
pub proof fn lemma_diagram_cells_len(s: Seq<usize>)
    ensures
        diagram_cells(s).len() == seq_sum(s),
    decreases s.len(),
{
    if s.len() > 0 {
        lemma_diagram_cells_len(s.drop_last());
    }
}

/// Every listed cell lies in the diagram, with a column of at least 1.
pub proof fn lemma_diagram_cells_in(s: Seq<usize>)
    requires
        s.len() <= usize::MAX,
    ensures
        forall|k: int|
            0 <= k < diagram_cells(s).len() ==> {
                let c = #[trigger] diagram_cells(s)[k];
                cell_in(s, c) && c.col >= 1
            },
    decreases s.len(),
{
    if s.len() > 0 {
        let t = s.drop_last();
        lemma_diagram_cells_in(t);
        lemma_diagram_cells_len(t);
        let d = diagram_cells(s);
        assert forall|k: int| 0 <= k < d.len() implies {
            let c = #[trigger] d[k];
            cell_in(s, c) && c.col >= 1
        } by {
            if k < diagram_cells(t).len() {
                assert(d[k] == diagram_cells(t)[k]);
                let c = d[k];
                assert(cell_in(t, c));
                assert(t[c.row - 1] == s[c.row - 1]);
            } else {
                assert(d[k] == row_cells(s.len() as int, s.last() as int)[k - diagram_cells(t).len()]);
            }
        }
    }
}

/// The cells are listed in reading order.
pub proof fn lemma_diagram_cells_order(s: Seq<usize>)
    requires
        s.len() <= usize::MAX,
    ensures
        forall|a: int, b: int|
            0 <= a < b < diagram_cells(s).len() ==> before(
                #[trigger] diagram_cells(s)[a],
                #[trigger] diagram_cells(s)[b],
            ),
    decreases s.len(),
{
    if s.len() > 0 {
        let t = s.drop_last();
        lemma_diagram_cells_order(t);
        lemma_diagram_cells_in(t);
        let d = diagram_cells(s);
        let dt = diagram_cells(t);
        assert forall|a: int, b: int| 0 <= a < b < d.len() implies before(
            #[trigger] d[a],
            #[trigger] d[b],
        ) by {
            if b < dt.len() {
                assert(d[a] == dt[a] && d[b] == dt[b]);
            } else if a < dt.len() {
                assert(d[a] == dt[a]);
                assert(cell_in(t, dt[a]));
            }
        }
    }
}

/// Every cell of the diagram is listed.
pub proof fn lemma_diagram_cells_complete(s: Seq<usize>, c: Cell)
    requires
        s.len() <= usize::MAX,
        in_shape(s, c),
    ensures
        exists|k: int| 0 <= k < diagram_cells(s).len() && #[trigger] diagram_cells(s)[k] == c,
    decreases s.len(),
{
    let t = s.drop_last();
    let d = diagram_cells(s);
    let dt = diagram_cells(t);
    if c.row == s.len() {
        let k = dt.len() + c.col - 1;
        assert(d[k] == c);
    } else {
        assert(t[c.row - 1] == s[c.row - 1]);
        lemma_diagram_cells_complete(t, c);
        let k = choose|k: int| 0 <= k < dt.len() && #[trigger] dt[k] == c;
        assert(d[k] == c);
    }
}

/// In a partition, the first part plus the other rows never exceed the size.
pub proof fn lemma_corner_bound(s: Seq<usize>)
    requires
        is_partition(s),
        s.len() > 0,
    ensures
        s[0] + s.len() - 1 <= seq_sum(s),
    decreases s.len(),
{
    let t = s.drop_last();
    if s.len() > 1 {
        assert(is_partition(t)) by {
            assert forall|a: int, b: int| 0 <= a <= b < t.len() implies t[b] <= t[a] by {
                assert(t[a] == s[a] && t[b] == s[b]);
            }
            assert forall|a: int| 0 <= a < t.len() implies t[a] > 0 by {
                assert(t[a] == s[a]);
            }
        }
        lemma_corner_bound(t);
        assert(t[0] == s[0]);
        assert(s.last() > 0);
    } else {
        assert(t.len() == 0);
        assert(seq_sum(t) == 0);
    }
}

/// Every cell's hook fits within the size of the diagram.
pub proof fn lemma_hook_bound(s: Seq<usize>, c: Cell)
    requires
        is_partition(s),
        cell_in(s, c),
        c.col >= 1,
    ensures
        1 <= hook_len(s, c) <= seq_sum(s),
{
    lemma_corner_bound(s);
    lemma_count_le_len(s, c.col as int);
    assert(s[c.row - 1] <= s[0]);
}

#[derive(Debug, PartialEq, Eq, Hash)]
pub struct YoungDiagram {
    partition: Partition,
    size: usize,
}

impl View for YoungDiagram {
    /// The row lengths.
    type V = Seq<usize>;

    closed spec fn view(&self) -> Seq<usize> {
        self.partition@
    }
}

impl Clone for YoungDiagram {
    fn clone(&self) -> (res: Self)
        ensures
            res@ == self@,
    {
        proof {
            use_type_invariant(self);
        }
        YoungDiagram { partition: self.partition.clone(), size: self.size }
    }
}

impl YoungDiagram {
    #[verifier::type_invariant]
    pub closed spec fn valid(self) -> bool {
        self.size == seq_sum(self.partition@)
    }

    /// What the type invariant says about the rows.
    pub broadcast proof fn lemma_valid(d: YoungDiagram)
        requires
            #[trigger] d.valid(),
        ensures
            seq_sum(d@) <= usize::MAX,
    {
    }

    pub fn from_partition(partition: Partition) -> (r: Self)
        requires
            seq_sum(partition@) <= usize::MAX,
        ensures
            r@ == partition@,
    {
        let size = partition.size();
        YoungDiagram { partition, size }
    }

    /// Establishes the facts that hold of every diagram.
    pub fn facts(&self)
        ensures
            is_partition(self@),
            seq_sum(self@) <= usize::MAX,
            self@.len() <= usize::MAX,
    {
        proof {
            use_type_invariant(self);
            use_type_invariant(&self.partition);
        }
    }

    pub fn partition(&self) -> (r: &Partition)
        ensures
            r@ == self@,
    {
        &self.partition
    }

    pub fn size(&self) -> (r: usize)
        ensures
            r == seq_sum(self@),
    {
        proof {
            use_type_invariant(self);
        }
        self.size
    }

    pub fn num_rows(&self) -> (r: usize)
        ensures
            r == self@.len(),
    {
        self.partition.len()
    }

    /// The length of the first row, zero for the empty diagram.
    pub fn num_cols(&self) -> (r: usize)
        ensures
            r == part_at(self@, 0),
    {
        match self.partition.get(0) {
            Some(c) => c,
            None => 0,
        }
    }

    /// The length of row `i`, counted from 1.
    pub fn row_len(&self, i: usize) -> (r: Option<usize>)
        requires
            i >= 1,
        ensures
            r == (if i <= self@.len() {
                Some(self@[i - 1])
            } else {
                None::<usize>
            }),
    {
        self.partition.get(i - 1)
    }

    /// The number of rows of length at least `j`: the height of column `j`.
    pub fn col_height(&self, j: usize) -> (r: usize)
        ensures
            r == count_at_least(self@, j as int),
    {
        let parts = self.partition.parts();
        let mut count: usize = 0;
        let mut i: usize = 0;
        while i < parts.len()
            invariant
                i <= parts@.len(),
                parts@ == self@,
                count == count_at_least(parts@.take(i as int), j as int),
                count <= i,
            decreases parts.len() - i,
        {
            proof {
                assert(parts@.take(i + 1).drop_last() =~= parts@.take(i as int));
            }
            if parts[i] >= j {
                count = count + 1;
            }
            i = i + 1;
        }
        proof {
            assert(parts@.take(i as int) =~= parts@);
        }
        count
    }

    pub fn is_empty(&self) -> (r: bool)
        ensures
            r == (seq_sum(self@) == 0),
    {
        proof {
            use_type_invariant(self);
        }
        self.size == 0
    }

    /// Every cell, row by row from the top, each row left to right.
    pub fn cells(&self) -> (r: Vec<Cell>)
        ensures
            r@ == diagram_cells(self@),
    {
        let rows = self.num_rows();
        let mut out: Vec<Cell> = Vec::new();
        let mut i: usize = 0;
        while i < rows
            invariant
                i <= rows,
                rows == self@.len(),
                out@ == diagram_cells(self@.take(i as int)),
            decreases rows - i,
        {
            let len = match self.row_len(i + 1) {
                Some(l) => l,
                None => 0,
            };
            let ghost base = out@;
            let mut c: usize = 0;
            while c < len
                invariant
                    c <= len,
                    i < rows,
                    rows == self@.len(),
                    len == self@[i as int],
                    out@ == base + row_cells(i + 1, c as int),
                decreases len - c,
            {
                out.push(Cell::new(i + 1, c + 1));
                proof {
                    assert(row_cells(i + 1, c + 1) =~= row_cells(i + 1, c as int).push(
                        Cell { row: (i + 1) as usize, col: (c + 1) as usize },
                    ));
                    assert(out@ =~= base + row_cells(i + 1, c + 1));
                }
                c = c + 1;
            }
            proof {
                let t = self@.take(i + 1);
                assert(t.drop_last() =~= self@.take(i as int));
                assert(out@ =~= diagram_cells(t));
            }
            i = i + 1;
        }
        proof {
            assert(self@.take(i as int) =~= self@);
        }
        out
    }

    /// The hook length of every cell, in the order of `cells`.
    pub fn hook_lengths(&self) -> (r: Vec<usize>)
        ensures
            r@ == diagram_cells(self@).map_values(|c: Cell| hook_len(self@, c) as usize),
            forall|k: int| 0 <= k < r.len() ==> r@[k] == hook_len(self@, diagram_cells(self@)[k]),
    {
        self.facts();
        let cells = self.cells();
        let mut out: Vec<usize> = Vec::new();
        let mut k: usize = 0;
        proof {
            lemma_diagram_cells_in(self@);
        }
        while k < cells.len()
            invariant
                k <= cells.len(),
                cells@ == diagram_cells(self@),
                is_partition(self@),
                seq_sum(self@) <= usize::MAX,
                forall|m: int|
                    0 <= m < cells@.len() ==> cell_in(self@, #[trigger] cells@[m]) && cells@[m].col
                        >= 1,
                out@.len() == k,
                forall|m: int| 0 <= m < k ==> out@[m] == hook_len(self@, #[trigger] cells@[m]),
            decreases cells.len() - k,
        {
            proof {
                lemma_hook_bound(self@, cells@[k as int]);
            }
            let h = cells[k].hook_length(self);
            out.push(h);
            k = k + 1;
        }
        proof {
            assert(out@ =~= diagram_cells(self@).map_values(|c: Cell| hook_len(self@, c) as usize))
                by {
                assert forall|m: int| 0 <= m < out@.len() implies out@[m] == diagram_cells(
                    self@,
                ).map_values(|c: Cell| hook_len(self@, c) as usize)[m] by {
                    lemma_hook_bound(self@, cells@[m]);
                }
            }
        }
        out
    }

    /// The diagram reflected in its main diagonal: rows become columns. It transposes the
    /// cells, keeps the size, and conjugating it again gives this diagram back.
    pub fn conjugate(&self) -> (r: Self)
        ensures
            r@ == conjugate_parts(self@),
            conjugate_parts(r@) == self@,
            seq_sum(r@) == seq_sum(self@),
            r@.len() == part_at(self@, 0),
            part_at(r@, 0) == self@.len(),
            forall|row: usize, col: usize|
                in_shape(self@, Cell { row: row, col: col }) <==> #[trigger] in_shape(
                    r@,
                    Cell { row: col, col: row },
                ),
    {
        self.facts();
        let max_col = self.num_cols();
        let mut conj_parts: Vec<usize> = Vec::new();
        let mut j: usize = 0;
        while j < max_col
            invariant
                j <= max_col,
                max_col == part_at(self@, 0),
                conj_parts@ =~= conjugate_parts(self@).take(j as int),
            decreases max_col - j,
        {
            let h = self.col_height(j + 1);
            conj_parts.push(h);
            proof {
                assert(conj_parts@ =~= conjugate_parts(self@).take(j + 1));
            }
            j = j + 1;
        }
        proof {
            assert(conj_parts@ =~= conjugate_parts(self@));
            lemma_conjugate_partition(self@);
            lemma_conjugate_size(self@);
            lemma_conjugate_involution(self@);
            lemma_conjugate_transposes(self@);
        }
        let p = Partition::new(conj_parts).unwrap();
        Self::from_partition(p)
    }

    /// Whether the cell at row `r`, column `c` (from 1) is in the diagram.
    fn has_cell(&self, r: usize, c: usize) -> (b: bool)
        ensures
            b == (r >= 1 && c >= 1 && cell_in(self@, Cell { row: r, col: c })),
    {
        if r == 0 || c == 0 {
            return false;
        }
        match self.row_len(r) {
            Some(len) => c <= len,
            None => false,
        }
    }
}


impl YoungDiagram {
    /// The diagram drawn with box-drawing characters, cells two characters wide, each line
    /// followed by a newline (what the diagram displays as).
    pub fn to_string(&self) -> (r: String)
        requires
            grid_width(self@, 2) <= usize::MAX,
            2 * self@.len() + 1 <= usize::MAX,
        ensures
            r@ == terminated_lines(drawing(self@, 2, false, Map::<Cell, Seq<char>>::empty())),
    {
        let n_rows = self.num_rows();
        if n_rows == 0 {
            proof {
                let t = trim_spaces(grid_row(self@, 2, false, Map::<Cell, Seq<char>>::empty(), 0));
                assert(grid_row(self@, 2, false, Map::<Cell, Seq<char>>::empty(), 0) =~= seq![' ']);
                assert(seq![' '].drop_last() =~= Seq::<char>::empty());
                assert(trim_spaces(seq![' ']) == trim_spaces(Seq::<char>::empty()));
                assert(trim_spaces(Seq::<char>::empty()) == Seq::<char>::empty());
                assert(t.len() == 0);
                assert(crate::render::grid_lines(self@, 2, false, Map::<Cell, Seq<char>>::empty(), 0) =~= Seq::<Seq<char>>::empty());
                assert(drawing(self@, 2, false, Map::<Cell, Seq<char>>::empty()) == crate::render::grid_lines(self@, 2, false, Map::<Cell, Seq<char>>::empty(), 1));
                assert(drawing(self@, 2, false, Map::<Cell, Seq<char>>::empty()) =~= Seq::<Seq<char>>::empty());
                assert(terminated_lines(Seq::<Seq<char>>::empty()) =~= Seq::<char>::empty());
            }
            return string_from_chars(&Vec::new());
        }
        let blank: Filling<Vec<char>> = Filling::new();
        proof {
            assert(text_views(blank@) =~= Map::<Cell, Seq<char>>::empty());
        }
        let lines = draw(self.partition.parts(), 2, false, &blank);
        let text = terminate_lines(&lines);
        string_from_chars(&text)
    }
}

} // verus!
