//! Young tableaux: diagrams with values written into their cells.
use vstd::prelude::*;
use crate::cell::{Cell, in_shape, before};
use crate::diagram::{YoungDiagram, count_at_least, lemma_count_prefix};
use crate::filling::Filling;
use crate::partition::{is_partition, seq_sum, lemma_part_le_sum};
use crate::render::{draw, drawing, grid_row, grid_width, join_lines, joined_lines, trim_spaces,
    text_views};
use crate::text::{decimal, decimal_chars, string_from_chars, string_chars, lemma_utf8_len,
    lemma_utf8_ascii, lemma_decimal_ascii, lemma_decimal_len};
use vstd::utf8::encode_utf8;

verus! {

/// The cell holds a value from 1 to the size that no earlier cell holds.
pub open spec fn entry_ok(s: Seq<usize>, f: Map<Cell, usize>, c: Cell) -> bool {
    &&& f.dom().contains(c)
    &&& 1 <= f[c] <= seq_sum(s)
    &&& forall|d: Cell|
        in_shape(s, d) && before(d, c) && f.dom().contains(d) ==> #[trigger] f[d] != f[c]
}

/// Every cell of the shape holds its own value from 1 to the size.
pub open spec fn entries_ok(s: Seq<usize>, f: Map<Cell, usize>) -> bool {
    forall|c: Cell| in_shape(s, c) ==> #[trigger] entry_ok(s, f, c)
}

/// Values increase strictly along each row.
pub open spec fn rows_increase(s: Seq<usize>, f: Map<Cell, usize>) -> bool {
    forall|c: Cell|
        in_shape(s, c) && c.col >= 2 ==> f[Cell { row: c.row, col: (c.col - 1) as usize }] < #[trigger] f[c]
}

/// Values increase strictly down each column.
pub open spec fn cols_increase(s: Seq<usize>, f: Map<Cell, usize>) -> bool {
    forall|c: Cell|
        in_shape(s, c) && c.row >= 2 ==> f[Cell { row: (c.row - 1) as usize, col: c.col }] < #[trigger] f[c]
}

/// A standard filling: the values 1 to the size, each once, increasing along rows and columns.
pub open spec fn is_standard(s: Seq<usize>, f: Map<Cell, usize>) -> bool {
    &&& entries_ok(s, f)
    &&& rows_increase(s, f)
    &&& cols_increase(s, f)
}

/// The first cell, in reading order, whose entry is missing, out of range or repeated.
pub open spec fn first_fault(s: Seq<usize>, f: Map<Cell, usize>) -> Cell {
    choose|c: Cell|
        in_shape(s, c) && !entry_ok(s, f, c) && forall|d: Cell|
            in_shape(s, d) && before(d, c) ==> entry_ok(s, f, d)
}

/// The message for a faulty entry.
pub open spec fn fault_message(s: Seq<usize>, f: Map<Cell, usize>, c: Cell) -> Seq<char> {
    if !f.dom().contains(c) {
        "存在未填充的格子"@
    } else if f[c] == 0 || f[c] > seq_sum(s) {
        "填值必须在 1..n 范围内"@
    } else {
        "填值重复"@
    }
}

proof fn lemma_first_fault(s: Seq<usize>, f: Map<Cell, usize>, c: Cell)
    requires
        in_shape(s, c),
        !entry_ok(s, f, c),
        forall|d: Cell| in_shape(s, d) && before(d, c) ==> entry_ok(s, f, d),
    ensures
        first_fault(s, f) == c,
{
    let e = first_fault(s, f);
    assert(in_shape(s, e) && !entry_ok(s, f, e) && forall|d: Cell|
        in_shape(s, d) && before(d, e) ==> entry_ok(s, f, d));
    if e != c {
        if before(e, c) {
            assert(entry_ok(s, f, e));
        } else {
            assert(before(c, e));
            assert(entry_ok(s, f, c));
        }
    }
}


/// Checks every cell, in reading order, for a value from 1 to the size that no earlier
/// cell holds.
fn check_entries(shape: &YoungDiagram, filling: &Filling<usize>) -> (r: Result<(), &'static str>)
    requires
        seq_sum(shape@) < usize::MAX,
    ensures
        r is Ok <==> entries_ok(shape@, filling@),
        r matches Err(e) ==> e@ == fault_message(shape@, filling@, first_fault(shape@, filling@)),
{
    shape.facts();
    let ghost s = shape@;
    let ghost f = filling@;
    let n = shape.size();
    let mut used: Vec<bool> = Vec::new();
    let mut k: usize = 0;
    while k <= n
        invariant
            k <= n + 1,
            n < usize::MAX,
            used@.len() == k,
            forall|v: int| 0 <= v < k ==> !used@[v],
        decreases n + 1 - k,
    {
        used.push(false);
        k = k + 1;
    }
    let rows = shape.num_rows();
    let mut i: usize = 0;
    while i < rows
        invariant
            i <= rows,
            rows == s.len(),
            s == shape@,
            f == filling@,
            n == seq_sum(s),
            n < usize::MAX,
            is_partition(s),
            used@.len() == n + 1,
            forall|d: Cell| in_shape(s, d) && d.row <= i ==> entry_ok(s, f, d),
            forall|v: int|
                0 <= v <= n ==> (used@[v] <==> exists|d: Cell|
                    in_shape(s, d) && d.row <= i && #[trigger] f[d] == v),
        decreases rows - i,
    {
        let len = match shape.row_len(i + 1) {
            Some(l) => l,
            None => 0,
        };
        proof {
            lemma_part_le_sum(s, i as int);
        }
        let mut c: usize = 0;
        while c < len
            invariant
                c <= len,
                len < usize::MAX,
                i < rows,
                len == s[i as int],
                rows == s.len(),
                s == shape@,
                f == filling@,
                n == seq_sum(s),
                n < usize::MAX,
                is_partition(s),
                used@.len() == n + 1,
                forall|d: Cell|
                    in_shape(s, d) && before(d, Cell { row: (i + 1) as usize, col: (c + 1) as usize })
                        ==> entry_ok(s, f, d),
                forall|v: int|
                    0 <= v <= n ==> (used@[v] <==> exists|d: Cell|
                        in_shape(s, d) && before(d, Cell { row: (i + 1) as usize, col: (c + 1) as usize })
                            && #[trigger] f[d] == v),
            decreases len - c,
        {
            let cell = Cell::new(i + 1, c + 1);
            let ghost cur = cell;
            proof {
                assert(in_shape(s, cur));
            }
            let val = match filling.get(&cell) {
                Some(v) => *v,
                None => {
                    proof {
                        assert(!entry_ok(s, f, cur));
                        lemma_first_fault(s, f, cur);
                    }
                    return Err("存在未填充的格子");
                },
            };
            if val == 0 || val > n {
                proof {
                    assert(!entry_ok(s, f, cur));
                    lemma_first_fault(s, f, cur);
                }
                return Err("填值必须在 1..n 范围内");
            }
            if used[val] {
                proof {
                    let d = choose|d: Cell| in_shape(s, d) && before(d, cur) && #[trigger] f[d]
                        == val as int;
                    assert(entry_ok(s, f, d));
                    assert(!entry_ok(s, f, cur));
                    lemma_first_fault(s, f, cur);
                }
                return Err("填值重复");
            }
            proof {
                assert(entry_ok(s, f, cur)) by {
                    assert forall|d: Cell|
                        in_shape(s, d) && before(d, cur) && f.dom().contains(d) implies #[trigger] f[d]
                        != f[cur] by {
                        if f[d] == f[cur] {
                            assert(used@[val as int]);
                        }
                    }
                }
            }
            used.set(val, true);
            proof {
                let nxt = Cell { row: (i + 1) as usize, col: (c + 2) as usize };
                assert forall|d: Cell| in_shape(s, d) && before(d, nxt) implies entry_ok(s, f, d)
                    by {
                    if d != cur {
                        assert(before(d, cur));
                    }
                }
                assert forall|v: int| 0 <= v <= n implies (used@[v] <==> exists|d: Cell|
                    in_shape(s, d) && before(d, nxt) && #[trigger] f[d] == v) by {
                    if v == val {
                        assert(in_shape(s, cur) && before(cur, nxt) && f[cur] == v);
                    } else {
                        if exists|d: Cell| in_shape(s, d) && before(d, nxt) && #[trigger] f[d] == v {
                            let d = choose|d: Cell| in_shape(s, d) && before(d, nxt) && #[trigger] f[d] == v;
                            assert(d != cur);
                            assert(before(d, cur));
                        }
                    }
                }
            }
            c = c + 1;
        }
        proof {
            assert forall|d: Cell| in_shape(s, d) && d.row <= i + 1 implies entry_ok(s, f, d) by {
                if d.row == i + 1 {
                    assert(before(d, Cell { row: (i + 1) as usize, col: (c + 1) as usize }));
                } else {
                    assert(before(d, Cell { row: (i + 1) as usize, col: (c + 1) as usize }));
                }
            }
            assert forall|v: int| 0 <= v <= n implies (used@[v] <==> exists|d: Cell|
                in_shape(s, d) && d.row <= i + 1 && #[trigger] f[d] == v) by {
                let cur = Cell { row: (i + 1) as usize, col: (c + 1) as usize };
                if exists|d: Cell| in_shape(s, d) && d.row <= i + 1 && #[trigger] f[d] == v {
                    let d = choose|d: Cell| in_shape(s, d) && d.row <= i + 1 && #[trigger] f[d] == v;
                    assert(before(d, cur));
                }
                if exists|d: Cell| in_shape(s, d) && before(d, cur) && #[trigger] f[d] == v {
                    let d = choose|d: Cell| in_shape(s, d) && before(d, cur) && #[trigger] f[d] == v;
                    assert(d.row <= i + 1);
                }
            }
        }
        i = i + 1;
    }
    proof {
        assert forall|d: Cell| in_shape(s, d) implies #[trigger] entry_ok(s, f, d) by {
            assert(d.row <= s.len());
        }
    }
    Ok(())
}

/// Checks that values increase along each row.
fn check_rows(shape: &YoungDiagram, filling: &Filling<usize>) -> (r: bool)
    requires
        seq_sum(shape@) < usize::MAX,
        entries_ok(shape@, filling@),
    ensures
        r == rows_increase(shape@, filling@),
{
    shape.facts();
    let ghost s = shape@;
    let ghost f = filling@;
    let rows = shape.num_rows();
    // Rows, top to bottom.
    let mut i: usize = 0;
    while i < rows
        invariant
            i <= rows,
            rows == s.len(),
            s == shape@,
            f == filling@,
            seq_sum(s) < usize::MAX,
            entries_ok(s, f),
            forall|d: Cell|
                in_shape(s, d) && d.col >= 2 && d.row <= i ==> f[Cell { row: d.row, col: (d.col - 1) as usize }] < #[trigger] f[d],
        decreases rows - i,
    {
        let len = match shape.row_len(i + 1) {
            Some(l) => l,
            None => 0,
        };
        proof {
            lemma_part_le_sum(s, i as int);
        }
        let mut prev: usize = 0;
        let mut c: usize = 0;
        while c < len
            invariant
                c <= len,
                len < usize::MAX,
                i < rows,
                len == s[i as int],
                rows == s.len(),
                s == shape@,
                f == filling@,
                entries_ok(s, f),
                c == 0 ==> prev == 0,
                c > 0 ==> prev == f[Cell { row: (i + 1) as usize, col: c }],
                forall|d: Cell|
                    in_shape(s, d) && d.col >= 2 && before(d, Cell { row: (i + 1) as usize, col: (c + 1) as usize })
                        ==> f[Cell { row: d.row, col: (d.col - 1) as usize }] < #[trigger] f[d],
            decreases len - c,
        {
            let cell = Cell::new(i + 1, c + 1);
            proof {
                assert(in_shape(s, cell));
                assert(entry_ok(s, f, cell));
            }
            let val = *filling.get(&cell).unwrap();
            if val <= prev {
                proof {
                    assert(c > 0);
                    assert(!rows_increase(s, f)) by {
                        assert(f[Cell { row: cell.row, col: (cell.col - 1) as usize }] >= f[cell]);
                    }
                }
                return false;
            }
            proof {
                let nxt = Cell { row: (i + 1) as usize, col: (c + 2) as usize };
                assert forall|d: Cell|
                    in_shape(s, d) && d.col >= 2 && before(d, nxt) implies f[Cell {
                    row: d.row,
                    col: (d.col - 1) as usize,
                }] < #[trigger] f[d] by {
                    if d != cell {
                        assert(before(d, cell));
                    }
                }
            }
            prev = val;
            c = c + 1;
        }
        proof {
            assert forall|d: Cell|
                in_shape(s, d) && d.col >= 2 && d.row <= i + 1 implies f[Cell {
                row: d.row,
                col: (d.col - 1) as usize,
            }] < #[trigger] f[d] by {
                assert(before(d, Cell { row: (i + 1) as usize, col: (c + 1) as usize }));
            }
        }
        i = i + 1;
    }
    proof {
        assert forall|d: Cell| in_shape(s, d) && d.col >= 2 implies f[Cell {
            row: d.row,
            col: (d.col - 1) as usize,
        }] < #[trigger] f[d] by {
            assert(d.row <= s.len());
        }
    }
    true
}

/// Checks that values increase down each column.
fn check_cols(shape: &YoungDiagram, filling: &Filling<usize>) -> (r: bool)
    requires
        entries_ok(shape@, filling@),
    ensures
        r == cols_increase(shape@, filling@),
{
    shape.facts();
    let ghost s = shape@;
    let ghost f = filling@;
    // Columns, left to right.
    let max_col = shape.num_cols();
    let mut j: usize = 0;
    while j < max_col
        invariant
            j <= max_col,
            max_col == (if s.len() > 0 { s[0] as int } else { 0 }),
            s == shape@,
            f == filling@,
            is_partition(s),
            entries_ok(s, f),
            forall|d: Cell|
                in_shape(s, d) && d.row >= 2 && d.col <= j ==> f[Cell { row: (d.row - 1) as usize, col: d.col }] < #[trigger] f[d],
        decreases max_col - j,
    {
        let h = shape.col_height(j + 1);
        proof {
            lemma_count_prefix(s, j + 1);
        }
        let mut prev: usize = 0;
        let mut r: usize = 0;
        while r < h
            invariant
                r <= h,
                j < max_col,
                h == count_at_least(s, j + 1),
                h <= s.len(),
                forall|a: int| 0 <= a < h ==> s[a] >= j + 1,
                s == shape@,
                f == filling@,
                is_partition(s),
                entries_ok(s, f),
                r == 0 ==> prev == 0,
                r > 0 ==> prev == f[Cell { row: r, col: (j + 1) as usize }],
                forall|d: Cell|
                    in_shape(s, d) && d.row >= 2 && (d.col <= j || (d.col == j + 1 && d.row <= r))
                        ==> f[Cell { row: (d.row - 1) as usize, col: d.col }] < #[trigger] f[d],
            decreases h - r,
        {
            let cell = Cell::new(r + 1, j + 1);
            proof {
                assert(in_shape(s, cell));
                assert(entry_ok(s, f, cell));
            }
            let val = *filling.get(&cell).unwrap();
            if val <= prev {
                proof {
                    assert(r > 0);
                    assert(!cols_increase(s, f)) by {
                        assert(f[Cell { row: (cell.row - 1) as usize, col: cell.col }] >= f[cell]);
                    }
                }
                return false;
            }
            prev = val;
            r = r + 1;
        }
        proof {
            assert forall|d: Cell|
                in_shape(s, d) && d.row >= 2 && d.col <= j + 1 implies f[Cell {
                row: (d.row - 1) as usize,
                col: d.col,
            }] < #[trigger] f[d] by {
                if d.col == j + 1 {
                    lemma_count_prefix(s, j + 1);
                    if d.row > h {
                        assert(s[d.row - 1] < j + 1);
                    }
                }
            }
        }
        j = j + 1;
    }
    proof {
        assert forall|d: Cell| in_shape(s, d) && d.row >= 2 implies f[Cell {
            row: (d.row - 1) as usize,
            col: d.col,
        }] < #[trigger] f[d] by {
            assert(s[d.row - 1] <= s[0]);
        }
    }
    true
}

/// `cw` is the width of the widest value in decimal, and at least 1.
pub open spec fn is_label_width(f: Map<Cell, usize>, cw: int) -> bool {
    &&& cw >= 1
    &&& forall|c: Cell| #[trigger] f.dom().contains(c) ==> decimal(f[c] as nat).len() <= cw
    &&& (cw == 1 || exists|c: Cell| #[trigger] f.dom().contains(c) && decimal(f[c] as nat).len() == cw)
}

/// The values written in decimal.
pub open spec fn decimal_texts(f: Map<Cell, usize>) -> Map<Cell, Seq<char>> {
    f.map_values(|v: usize| decimal(v as nat))
}

/// `cw` is the length in UTF-8 bytes of the longest text, and at least 1.
pub open spec fn is_text_width(texts: Map<Cell, Seq<char>>, cw: int) -> bool {
    &&& cw >= 1
    &&& forall|c: Cell| #[trigger] texts.dom().contains(c) ==> encode_utf8(texts[c]).len() <= cw
    &&& (cw == 1 || exists|c: Cell| #[trigger] texts.dom().contains(c) && encode_utf8(texts[c]).len() == cw)
}

/// The texts held as strings, as character sequences.
pub open spec fn string_views(texts: Map<Cell, String>) -> Map<Cell, Seq<char>> {
    texts.map_values(|t: String| t@)
}

/// A value in decimal takes as many bytes as it has digits.
proof fn lemma_decimal_bytes(f: Map<Cell, usize>)
    ensures
        forall|c: Cell| #[trigger] f.dom().contains(c) ==> encode_utf8(decimal_texts(f)[c]).len() == decimal(f[c] as nat).len(),
{
    assert forall|c: Cell| #[trigger] f.dom().contains(c) implies encode_utf8(decimal_texts(f)[c]).len() == decimal(f[c] as nat).len() by {
        lemma_decimal_ascii(f[c] as nat);
        lemma_utf8_ascii(decimal(f[c] as nat));
    }
}

/// A diagram with values in some of its cells.
#[derive(Debug)]
pub struct YoungTableau<T> {
    shape: YoungDiagram,
    filling: Filling<T>,
}

impl<T> YoungTableau<T> {
    pub closed spec fn shape_view(self) -> Seq<usize> {
        self.shape@
    }

    pub closed spec fn filling_view(self) -> Map<Cell, T> {
        self.filling@
    }

    /// A tableau with nothing written in it.
    pub fn new(shape: YoungDiagram) -> (r: Self)
        ensures
            r.shape_view() == shape@,
            r.filling_view() == Map::<Cell, T>::empty(),
    {
        YoungTableau { shape, filling: Filling::new() }
    }

    pub fn with_filling(shape: YoungDiagram, filling: Filling<T>) -> (r: Self)
        ensures
            r.shape_view() == shape@,
            r.filling_view() == filling@,
    {
        YoungTableau { shape, filling }
    }

    pub fn shape(&self) -> (r: &YoungDiagram)
        ensures
            r@ == self.shape_view(),
    {
        &self.shape
    }

    pub fn get(&self, cell: &Cell) -> (r: Option<&T>)
        ensures
            r == (if self.filling_view().dom().contains(*cell) {
                Some(&self.filling_view()[*cell])
            } else {
                None::<&T>
            }),
    {
        self.filling.get(cell)
    }

    /// Writes `value` into `cell`.
    pub fn set(&mut self, cell: Cell, value: T)
        ensures
            final(self).shape_view() == old(self).shape_view(),
            final(self).filling_view() == old(self).filling_view().insert(cell, value),
    {
        self.filling.insert(cell, value);
    }

    pub fn filling(&self) -> (r: &Filling<T>)
        ensures
            r@ == self.filling_view(),
    {
        &self.filling
    }
}

impl<T: Copy> Clone for YoungTableau<T> {
    fn clone(&self) -> (res: Self)
        ensures
            res.shape_view() == self.shape_view(),
            res.filling_view() == self.filling_view(),
    {
        YoungTableau { shape: self.shape.clone(), filling: self.filling.clone() }
    }
}

/// A tableau whose values are 1 to its size, each once, increasing along rows and down
/// columns (when made by `try_new`).
#[derive(Debug)]
pub struct StandardYoungTableau {
    inner: YoungTableau<usize>,
}

impl Clone for StandardYoungTableau {
    fn clone(&self) -> (res: Self)
        ensures
            res.shape_view() == self.shape_view(),
            res.filling_view() == self.filling_view(),
    {
        StandardYoungTableau { inner: self.inner.clone() }
    }
}

impl StandardYoungTableau {
    pub closed spec fn shape_view(self) -> Seq<usize> {
        self.inner.shape_view()
    }

    pub closed spec fn filling_view(self) -> Map<Cell, usize> {
        self.inner.filling_view()
    }

    /// Checks that `filling` is standard for `shape`: first every cell, in reading order,
    /// for a value from 1 to the size that no earlier cell holds; then the rows; then the
    /// columns.
    pub fn try_new(shape: YoungDiagram, filling: Filling<usize>) -> (r: Result<Self, &'static str>)
        requires
            seq_sum(shape@) < usize::MAX,
        ensures
            r is Ok <==> is_standard(shape@, filling@),
            r matches Ok(t) ==> t.shape_view() == shape@ && t.filling_view() == filling@,
            r matches Err(e) ==> e@ == (if !entries_ok(shape@, filling@) {
                fault_message(shape@, filling@, first_fault(shape@, filling@))
            } else if !rows_increase(shape@, filling@) {
                "行必须严格递增"@
            } else {
                "列必须严格递增"@
            }),
    {
        match check_entries(&shape, &filling) {
            Ok(()) => {},
            Err(e) => {
                return Err(e);
            },
        }
        if !check_rows(&shape, &filling) {
            return Err("行必须严格递增");
        }
        if !check_cols(&shape, &filling) {
            return Err("列必须严格递增");
        }
        Ok(StandardYoungTableau { inner: YoungTableau::with_filling(shape, filling) })
    }

    /// Wraps a filling without checking it.
    pub fn from_trusted(shape: YoungDiagram, filling: Filling<usize>) -> (r: Self)
        ensures
            r.shape_view() == shape@,
            r.filling_view() == filling@,
    {
        StandardYoungTableau { inner: YoungTableau::with_filling(shape, filling) }
    }

    pub fn shape(&self) -> (r: &YoungDiagram)
        ensures
            r@ == self.shape_view(),
    {
        self.inner.shape()
    }

    pub fn get(&self, cell: &Cell) -> (r: Option<&usize>)
        ensures
            r == (if self.filling_view().dom().contains(*cell) {
                Some(&self.filling_view()[*cell])
            } else {
                None::<&usize>
            }),
    {
        self.inner.get(cell)
    }
}


impl<T> YoungTableau<T> {
    /// The tableau drawn as `display` draws it, with `texts[c]` written in cell `c`: the
    /// values as the caller writes them out. Each text is centred in a cell as wide as the
    /// longest text is long in UTF-8 bytes (at least 1), and the lines are joined by newlines.
    pub fn display_texts(&self, texts: &Filling<String>) -> (r: String)
        requires
            forall|c: Cell| #[trigger] texts@.dom().contains(c) ==> encode_utf8(texts@[c]@).len() <= usize::MAX,
            forall|cw: int| is_text_width(string_views(texts@), cw) ==> grid_width(self.shape_view(), cw) <= usize::MAX,
            2 * self.shape_view().len() + 1 <= usize::MAX,
        ensures
            exists|cw: int|
                is_text_width(string_views(texts@), cw) && r@ == joined_lines(
                    drawing(self.shape_view(), cw, true, string_views(texts@)),
                ),
    {
        proof {
            use_type_invariant(texts);
            Filling::<String>::lemma_valid(*texts);
        }
        let ghost tv = string_views(texts@);
        let ghost s = self.shape@;
        let n_rows = self.shape.num_rows();
        // The longest text, and the texts as characters.
        let count = texts.len();
        let mut cw: usize = 1;
        let mut widest: usize = 0;
        let mut chars: Filling<Vec<char>> = Filling::new();
        let mut i: usize = 0;
        while i < count
            invariant
                i <= count,
                count == texts.entry_list().len(),
                tv == string_views(texts@),
                forall|k: int|
                    0 <= k < texts.entry_list().len() ==> texts@.dom().contains(#[trigger] texts.entry_list()[k].0)
                        && texts@[texts.entry_list()[k].0] == texts.entry_list()[k].1,
                forall|c: Cell| #[trigger] texts@.dom().contains(c) ==> exists|k: int|
                    0 <= k < texts.entry_list().len() && texts.entry_list()[k].0 == c,
                forall|c: Cell| #[trigger] texts@.dom().contains(c) ==> encode_utf8(texts@[c]@).len() <= usize::MAX,
                widest <= cw,
                cw == (if widest >= 1 { widest } else { 1 }),
                forall|k: int| 0 <= k < i ==> encode_utf8((#[trigger] texts.entry_list()[k]).1@).len() <= widest,
                widest == 0 || exists|c: Cell| #[trigger] tv.dom().contains(c) && encode_utf8(tv[c]).len() == widest,
                forall|c: Cell| #[trigger] chars@.dom().contains(c) <==> exists|k: int|
                    0 <= k < i && texts.entry_list()[k].0 == c,
                forall|c: Cell| #[trigger] chars@.dom().contains(c) ==> chars@[c]@ == tv[c],
            decreases count - i,
        {
            let (cell, text) = texts.entry(i);
            proof {
                assert(texts@.dom().contains(texts.entry_list()[i as int].0));
            }
            let bytes = text.as_str().len();
            if bytes > widest {
                widest = bytes;
                cw = widest;
                proof {
                    assert(tv.dom().contains(texts.entry_list()[i as int].0));
                }
            }
            let ghost before = chars@;
            chars.insert(*cell, string_chars(text));
            proof {
                assert forall|c: Cell| #[trigger] chars@.dom().contains(c) <==> exists|k: int|
                    0 <= k < i + 1 && texts.entry_list()[k].0 == c by {
                    if c == *cell {
                        assert(texts.entry_list()[i as int].0 == c);
                    } else if before.dom().contains(c) {
                        let k = choose|k: int| 0 <= k < i && texts.entry_list()[k].0 == c;
                    } else {
                        if exists|k: int| 0 <= k < i + 1 && texts.entry_list()[k].0 == c {
                            let k = choose|k: int| 0 <= k < i + 1 && texts.entry_list()[k].0 == c;
                            assert(k < i);
                        }
                    }
                }
                assert(texts@.dom().contains(texts.entry_list()[i as int].0));
            }
            i = i + 1;
        }
        proof {
            assert forall|c: Cell| #[trigger] tv.dom().contains(c) implies encode_utf8(tv[c]).len() <= cw by {
                let k = choose|k: int| 0 <= k < texts.entry_list().len() && texts.entry_list()[k].0 == c;
                assert(encode_utf8(texts.entry_list()[k].1@).len() <= widest);
            }
            if cw > 1 {
                let c = choose|c: Cell| #[trigger] tv.dom().contains(c) && encode_utf8(tv[c]).len() == widest;
            }
            assert(is_text_width(tv, cw as int));
            assert(text_views(chars@) =~= tv) by {
                assert forall|c: Cell| #[trigger] chars@.dom().contains(c) <==> tv.dom().contains(c) by {
                    if tv.dom().contains(c) {
                        let k = choose|k: int| 0 <= k < texts.entry_list().len() && texts.entry_list()[k].0 == c;
                    }
                }
            }
            assert forall|c: Cell| #[trigger] chars@.dom().contains(c) implies chars@[c]@.len() <= cw by {
                lemma_utf8_len(tv[c]);
            }
            assert(s == self.shape_view());
            assert(grid_width(s, cw as int) <= usize::MAX);
        }
        self.shape.facts();
        if n_rows == 0 {
            proof {
                let t = trim_spaces(grid_row(s, cw as int, true, tv, 0));
                assert(grid_row(s, cw as int, true, tv, 0) =~= seq![' ']);
                assert(seq![' '].drop_last() =~= Seq::<char>::empty());
                assert(trim_spaces(seq![' ']) == trim_spaces(Seq::<char>::empty()));
                assert(trim_spaces(Seq::<char>::empty()) == Seq::<char>::empty());
                assert(crate::render::grid_lines(s, cw as int, true, tv, 0) =~= Seq::<Seq<char>>::empty());
                assert(drawing(s, cw as int, true, tv) == crate::render::grid_lines(s, cw as int, true, tv, 1));
                assert(drawing(s, cw as int, true, tv) =~= Seq::<Seq<char>>::empty());
                assert(joined_lines(Seq::<Seq<char>>::empty()) =~= Seq::<char>::empty());
            }
            return string_from_chars(&Vec::new());
        }
        proof {
            assert(s[0] >= 1);
            assert(grid_width(s, cw as int) == s[0] * (cw + 1) + 1);
            assert(s[0] * (cw + 1) >= cw + 1) by (nonlinear_arith)
                requires
                    s[0] >= 1,
                    cw >= 1,
            ;
        }
        let lines = draw(self.shape.partition().parts(), cw, true, &chars);
        let text = join_lines(&lines);
        string_from_chars(&text)
    }
}

impl YoungTableau<usize> {
    /// The tableau drawn with box-drawing characters, each value in decimal centred in a
    /// cell as wide as the widest value, the lines joined by newlines.
    pub fn display(&self) -> (r: String)
        requires
            forall|cw: int| is_label_width(self.filling_view(), cw) ==> grid_width(self.shape_view(), cw) <= usize::MAX,
            2 * self.shape_view().len() + 1 <= usize::MAX,
        ensures
            exists|cw: int|
                is_label_width(self.filling_view(), cw) && r@ == joined_lines(
                    drawing(self.shape_view(), cw, true, decimal_texts(self.filling_view())),
                ),
    {
        proof {
            use_type_invariant(&self.filling);
            Filling::<usize>::lemma_valid(self.filling);
        }
        let ghost f = self.filling@;
        let count = self.filling.len();
        let mut texts: Filling<String> = Filling::new();
        let mut i: usize = 0;
        while i < count
            invariant
                i <= count,
                count == self.filling.entry_list().len(),
                f == self.filling@,
                forall|k: int|
                    0 <= k < self.filling.entry_list().len() ==> f.dom().contains(#[trigger] self.filling.entry_list()[k].0)
                        && f[self.filling.entry_list()[k].0] == self.filling.entry_list()[k].1,
                forall|c: Cell| #[trigger] f.dom().contains(c) ==> exists|k: int|
                    0 <= k < self.filling.entry_list().len() && self.filling.entry_list()[k].0 == c,
                forall|c: Cell| #[trigger] texts@.dom().contains(c) <==> exists|k: int|
                    0 <= k < i && self.filling.entry_list()[k].0 == c,
                forall|c: Cell| #[trigger] texts@.dom().contains(c) ==> texts@[c]@ == decimal(f[c] as nat),
            decreases count - i,
        {
            let (cell, v) = self.filling.entry(i);
            let ghost before = texts@;
            texts.insert(*cell, string_from_chars(&decimal_chars(*v)));
            proof {
                assert forall|c: Cell| #[trigger] texts@.dom().contains(c) <==> exists|k: int|
                    0 <= k < i + 1 && self.filling.entry_list()[k].0 == c by {
                    if c == *cell {
                        assert(self.filling.entry_list()[i as int].0 == c);
                    } else if before.dom().contains(c) {
                        let k = choose|k: int| 0 <= k < i && self.filling.entry_list()[k].0 == c;
                    } else {
                        if exists|k: int| 0 <= k < i + 1 && self.filling.entry_list()[k].0 == c {
                            let k = choose|k: int| 0 <= k < i + 1 && self.filling.entry_list()[k].0 == c;
                            assert(k < i);
                        }
                    }
                }
                assert(f.dom().contains(self.filling.entry_list()[i as int].0));
            }
            i = i + 1;
        }
        proof {
            assert forall|c: Cell| #[trigger] texts@.dom().contains(c) implies encode_utf8(texts@[c]@).len() <= usize::MAX by {
                lemma_decimal_ascii(f[c] as nat);
                lemma_utf8_ascii(decimal(f[c] as nat));
                lemma_decimal_len(f[c] as nat);
            }
            assert(string_views(texts@) =~= decimal_texts(f)) by {
                assert forall|c: Cell| #[trigger] texts@.dom().contains(c) <==> f.dom().contains(c) by {
                    if f.dom().contains(c) {
                        let k = choose|k: int| 0 <= k < self.filling.entry_list().len() && self.filling.entry_list()[k].0 == c;
                    }
                }
            }
            assert forall|cw: int| #[trigger] is_text_width(decimal_texts(f), cw) == is_label_width(f, cw) by {
                lemma_decimal_bytes(f);
            }
            assert(f == self.filling_view());
        }
        self.display_texts(&texts)
    }
}

impl StandardYoungTableau {
    /// The tableau drawn as `YoungTableau::display` draws it.
    pub fn display(&self) -> (r: String)
        requires
            forall|cw: int| is_label_width(self.filling_view(), cw) ==> grid_width(self.shape_view(), cw) <= usize::MAX,
            2 * self.shape_view().len() + 1 <= usize::MAX,
        ensures
            exists|cw: int|
                is_label_width(self.filling_view(), cw) && r@ == joined_lines(
                    drawing(self.shape_view(), cw, true, decimal_texts(self.filling_view())),
                ),
    {
        proof {
            assert(self.filling_view() == self.inner.filling_view());
            assert(self.shape_view() == self.inner.shape_view());
        }
        self.inner.display()
    }
}

} // verus!
