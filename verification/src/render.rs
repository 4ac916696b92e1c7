//! Drawing diagrams and tableaux as a grid of box-drawing characters.
//!
//! A diagram with rows `s` and cells `cw` characters wide is drawn on a grid of
//! `2 * rows + 1` lines and `cols * (cw + 1) + 1` columns. Even lines carry the horizontal
//! borders, odd lines the cells; columns at multiples of `cw + 1` carry the vertical
//! borders. Trailing spaces are cut from each line and blank lines are left out.
use vstd::prelude::*;
use crate::cell::Cell;
use crate::partition::is_partition;
use vstd::arithmetic::div_mod::{lemma_fundamental_div_mod, lemma_mod_pos_bound, lemma_div_pos_is_pos};

verus! {

/// Cell (`r`, `c`) (from 1) is in the diagram.
pub open spec fn has_cell(s: Seq<usize>, r: int, c: int) -> bool {
    r >= 1 && c >= 1 && r <= s.len() && c <= s[r - 1]
}

/// The border from corner (`i`, `j`) runs right.
pub open spec fn runs_right(s: Seq<usize>, i: int, j: int) -> bool {
    has_cell(s, i + 1, j + 1) || (i > 0 && has_cell(s, i, j + 1))
}

/// The border from corner (`i`, `j`) runs left.
pub open spec fn runs_left(s: Seq<usize>, i: int, j: int) -> bool {
    j != 0 && (has_cell(s, i + 1, j) || (i > 0 && has_cell(s, i, j)))
}

/// The border from corner (`i`, `j`) runs down.
pub open spec fn runs_down(s: Seq<usize>, i: int, j: int) -> bool {
    has_cell(s, i + 1, j + 1) || (j > 0 && has_cell(s, i + 1, j))
}

/// The border from corner (`i`, `j`) runs up.
pub open spec fn runs_up(s: Seq<usize>, i: int, j: int) -> bool {
    i != 0 && (has_cell(s, i, j + 1) || (j > 0 && has_cell(s, i, j)))
}

/// The box-drawing character for a corner with borders in the given directions.
pub open spec fn corner_char(up: bool, down: bool, left: bool, right: bool) -> char {
    if !up && down && !left && right {
        '┌'
    } else if !up && down && left && !right {
        '┐'
    } else if !up && down && left && right {
        '┬'
    } else if up && !down && !left && right {
        '└'
    } else if up && !down && left && !right {
        '┘'
    } else if up && !down && left && right {
        '┴'
    } else if up && down && !left && right {
        '├'
    } else if up && down && left && !right {
        '┤'
    } else if up && down && left && right {
        '┼'
    } else if !up && !down && (left || right) {
        '─'
    } else if (up || down) && !left && !right {
        '│'
    } else {
        ' '
    }
}

/// What a cell shows: its text centred in `cw` characters, or blanks.
pub open spec fn label_char(texts: Map<Cell, Seq<char>>, cw: int, r: int, c: int, o: int) -> char {
    let cell = Cell { row: r as usize, col: c as usize };
    if !texts.dom().contains(cell) {
        ' '
    } else {
        let text = texts[cell];
        let pad_left = (cw - text.len()) / 2;
        if pad_left <= o < pad_left + text.len() {
            text[o - pad_left]
        } else {
            ' '
        }
    }
}

/// The character at line `gi`, column `gj` of the grid; `labels` says whether cells show
/// the texts of `texts`.
pub open spec fn grid_char(
    s: Seq<usize>,
    cw: int,
    labels: bool,
    texts: Map<Cell, Seq<char>>,
    gi: int,
    gj: int,
) -> char {
    let i = gi / 2;
    let j = gj / (cw + 1);
    let o = gj % (cw + 1);
    if gi % 2 == 0 {
        if o == 0 {
            corner_char(runs_up(s, i, j), runs_down(s, i, j), runs_left(s, i, j), runs_right(s, i, j))
        } else if runs_right(s, i, j) {
            '─'
        } else {
            ' '
        }
    } else {
        if o == 0 {
            if runs_down(s, i, j) {
                '│'
            } else {
                ' '
            }
        } else if labels && has_cell(s, i + 1, j + 1) {
            label_char(texts, cw, i + 1, j + 1, o - 1)
        } else {
            ' '
        }
    }
}

/// The character has a stroke going up.
pub open spec fn stroke_up(ch: char) -> bool {
    ch == '└' || ch == '┘' || ch == '┴' || ch == '├' || ch == '┤' || ch == '┼' || ch == '│'
}

/// The character has a stroke going down.
pub open spec fn stroke_down(ch: char) -> bool {
    ch == '┌' || ch == '┐' || ch == '┬' || ch == '├' || ch == '┤' || ch == '┼' || ch == '│'
}

/// The character has a stroke going left.
pub open spec fn stroke_left(ch: char) -> bool {
    ch == '┐' || ch == '┬' || ch == '┘' || ch == '┴' || ch == '┤' || ch == '┼' || ch == '─'
}

/// The character has a stroke going right.
pub open spec fn stroke_right(ch: char) -> bool {
    ch == '┌' || ch == '┬' || ch == '└' || ch == '┴' || ch == '├' || ch == '┼' || ch == '─'
}

/// The grid shows each cell's borders and nothing else: the corner between rows `i` and
/// `i + 1` and columns `j` and `j + 1` (counted from 1) has a stroke towards each side on
/// which one of the cells it touches lies in the diagram; a horizontal border segment is
/// drawn exactly where a cell lies above or below it, and a vertical one exactly where a
/// cell lies left or right of it.
pub proof fn lemma_grid_borders(
    s: Seq<usize>,
    cw: int,
    labels: bool,
    texts: Map<Cell, Seq<char>>,
    i: int,
    j: int,
    o: int,
)
    requires
        cw >= 1,
        0 <= i,
        0 <= j,
        0 < o <= cw,
    ensures
        ({
            let ch = grid_char(s, cw, labels, texts, 2 * i, j * (cw + 1));
            &&& stroke_up(ch) == (has_cell(s, i, j) || has_cell(s, i, j + 1))
            &&& stroke_down(ch) == (has_cell(s, i + 1, j) || has_cell(s, i + 1, j + 1))
            &&& stroke_left(ch) == (has_cell(s, i, j) || has_cell(s, i + 1, j))
            &&& stroke_right(ch) == (has_cell(s, i, j + 1) || has_cell(s, i + 1, j + 1))
        }),
        grid_char(s, cw, labels, texts, 2 * i, j * (cw + 1) + o) == if has_cell(s, i, j + 1) || has_cell(
            s,
            i + 1,
            j + 1,
        ) {
            '─'
        } else {
            ' '
        },
        grid_char(s, cw, labels, texts, 2 * i + 1, j * (cw + 1)) == if has_cell(s, i + 1, j) || has_cell(
            s,
            i + 1,
            j + 1,
        ) {
            '│'
        } else {
            ' '
        },
{
    let w = cw + 1;
    assert((2 * i) / 2 == i && (2 * i) % 2 == 0);
    assert((2 * i + 1) / 2 == i && (2 * i + 1) % 2 == 1);
    assert((j * w) / w == j && (j * w) % w == 0) by (nonlinear_arith)
        requires
            w >= 2,
            j >= 0,
    ;
    assert((j * w + o) / w == j && (j * w + o) % w == o) by (nonlinear_arith)
        requires
            w >= 2,
            j >= 0,
            0 < o < w,
    ;
}

/// Cutting trailing spaces keeps everything up to a character that is not a space.
proof fn lemma_trim_keeps(l: Seq<char>, q: int)
    requires
        0 <= q < l.len(),
        l[q] != ' ',
    ensures
        q < trim_spaces(l).len() <= l.len(),
        forall|i: int| 0 <= i < trim_spaces(l).len() ==> #[trigger] trim_spaces(l)[i] == l[i],
    decreases l.len(),
{
    if l.last() == ' ' {
        lemma_trim_keeps(l.drop_last(), q);
    }
}

/// A line whose characters after position `p` are all spaces is cut just after `p`.
proof fn lemma_trim_at(l: Seq<char>, p: int)
    requires
        0 <= p < l.len(),
        l[p] != ' ',
        forall|q: int| p < q < l.len() ==> #[trigger] l[q] == ' ',
    ensures
        trim_spaces(l) == l.take(p + 1),
    decreases l.len(),
{
    if p == l.len() - 1 {
        assert(l.take(p + 1) =~= l);
    } else {
        assert(l.drop_last().take(p + 1) =~= l.take(p + 1));
        lemma_trim_at(l.drop_last(), p);
    }
}

proof fn lemma_grid_lines_all(s: Seq<usize>, cw: int, labels: bool, texts: Map<Cell, Seq<char>>, k: int)
    requires
        0 <= k,
        forall|g: int| 0 <= g < k ==> trim_spaces(#[trigger] grid_row(s, cw, labels, texts, g)).len() > 0,
    ensures
        grid_lines(s, cw, labels, texts, k).len() == k,
        forall|g: int| 0 <= g < k ==> #[trigger] grid_lines(s, cw, labels, texts, k)[g] == trim_spaces(
            grid_row(s, cw, labels, texts, g),
        ),
    decreases k,
{
    if k > 0 {
        lemma_grid_lines_all(s, cw, labels, texts, k - 1);
        assert(trim_spaces(grid_row(s, cw, labels, texts, k - 1)).len() > 0);
    }
}

/// The drawing of a non-empty diagram has one line per border and per row of cells; its
/// first line runs from '┌' to '┐' across the first row, and its last line from '└' to
/// '┘' under the last row, ending there.
pub proof fn lemma_drawing_frame(s: Seq<usize>, cw: int, labels: bool, texts: Map<Cell, Seq<char>>)
    requires
        is_partition(s),
        s.len() > 0,
        cw >= 1,
    ensures
        ({
            let d = drawing(s, cw, labels, texts);
            let n = s.len() as int;
            &&& d.len() == 2 * n + 1
            &&& d[0][0] == '┌'
            &&& d[0].last() == '┐'
            &&& d[0].len() == s[0] * (cw + 1) + 1
            &&& d[2 * n][0] == '└'
            &&& d[2 * n].last() == '┘'
            &&& d[2 * n].len() == s[n - 1] * (cw + 1) + 1
        }),
{
    let n = s.len() as int;
    let w = cw + 1;
    let width = grid_width(s, cw);
    assert(s[0] > 0 && s[n - 1] > 0);
    assert(s[n - 1] <= s[0]);
    assert(width == s[0] * w + 1);
    assert(s[0] * w >= w) by (nonlinear_arith)
        requires
            s[0] >= 1,
            w >= 2,
    ;
    // every line starts with a character that is not a space
    assert forall|g: int| 0 <= g < 2 * n + 1 implies trim_spaces(#[trigger] grid_row(s, cw, labels, texts, g)).len() > 0 by {
        let l = grid_row(s, cw, labels, texts, g);
        assert(l[0] == grid_char(s, cw, labels, texts, g, 0));
        lemma_grid_borders(s, cw, labels, texts, g / 2, 0, 1);
        assert(0 * w == 0);
        if g % 2 == 0 {
            assert(2 * (g / 2) == g);
            if g / 2 < n {
                assert(has_cell(s, g / 2 + 1, 1));
            } else {
                assert(has_cell(s, g / 2, 1));
            }
        } else {
            assert(2 * (g / 2) + 1 == g);
            assert(has_cell(s, g / 2 + 1, 1));
        }
        lemma_trim_keeps(l, 0);
    }
    lemma_grid_lines_all(s, cw, labels, texts, 2 * n + 1);
    let d = drawing(s, cw, labels, texts);
    // the first line
    let l0 = grid_row(s, cw, labels, texts, 0);
    lemma_grid_borders(s, cw, labels, texts, 0, 0, 1);
    lemma_grid_borders(s, cw, labels, texts, 0, s[0] as int, 1);
    assert(0 * w == 0);
    assert(l0[0] == grid_char(s, cw, labels, texts, 0, 0));
    assert(l0[width - 1] == grid_char(s, cw, labels, texts, 0, s[0] * w));
    assert(has_cell(s, 1, 1) && has_cell(s, 1, s[0] as int) && !has_cell(s, 1, s[0] + 1));
    lemma_trim_at(l0, width - 1);
    assert(l0.take(width) =~= l0);
    // the last line
    let ll = grid_row(s, cw, labels, texts, 2 * n);
    let p = s[n - 1] * w;
    assert(p < width) by (nonlinear_arith)
        requires
            s[n - 1] <= s[0],
            width == s[0] * w + 1,
            p == s[n - 1] * w,
            w >= 2,
    ;
    lemma_grid_borders(s, cw, labels, texts, n, 0, 1);
    lemma_grid_borders(s, cw, labels, texts, n, s[n - 1] as int, 1);
    assert(ll[0] == grid_char(s, cw, labels, texts, 2 * n, 0));
    assert(ll[p] == grid_char(s, cw, labels, texts, 2 * n, s[n - 1] * w));
    assert(has_cell(s, n, 1) && has_cell(s, n, s[n - 1] as int) && !has_cell(s, n, s[n - 1] + 1));
    assert forall|q: int| p < q < ll.len() implies #[trigger] ll[q] == ' ' by {
        lemma_fundamental_div_mod(q, w);
        lemma_mod_pos_bound(q, w);
        lemma_div_pos_is_pos(q, w);
        let j = q / w;
        let o = q % w;
        assert(j >= s[n - 1]) by (nonlinear_arith)
            requires
                q == w * j + o,
                0 <= o < w,
                q > s[n - 1] * w,
                w >= 2,
        ;
        assert(o > 0 || j > s[n - 1]) by (nonlinear_arith)
            requires
                q == w * j + o,
                q > s[n - 1] * w,
                j >= s[n - 1],
        ;
        assert((2 * n) / 2 == n && (2 * n) % 2 == 0);
        assert(!has_cell(s, n, j + 1) && !has_cell(s, n + 1, j + 1) && !has_cell(s, n + 1, j));
        if o == 0 {
            assert(!has_cell(s, n, j));
        }
    }
    lemma_trim_at(ll, p);
}

/// The number of grid columns.
pub open spec fn grid_width(s: Seq<usize>, cw: int) -> int {
    (if s.len() > 0 {
        s[0] as int
    } else {
        0
    }) * (cw + 1) + 1
}

/// Line `gi` of the grid before trimming.
pub open spec fn grid_row(s: Seq<usize>, cw: int, labels: bool, texts: Map<Cell, Seq<char>>, gi: int) -> Seq<char> {
    Seq::new(grid_width(s, cw) as nat, |gj: int| grid_char(s, cw, labels, texts, gi, gj))
}

/// The line without its trailing spaces.
pub open spec fn trim_spaces(l: Seq<char>) -> Seq<char>
    decreases l.len(),
{
    if l.len() > 0 && l.last() == ' ' {
        trim_spaces(l.drop_last())
    } else {
        l
    }
}

/// The non-blank trimmed lines among the first `k` grid lines.
pub open spec fn grid_lines(s: Seq<usize>, cw: int, labels: bool, texts: Map<Cell, Seq<char>>, k: int) -> Seq<Seq<char>>
    decreases k,
{
    if k <= 0 {
        Seq::empty()
    } else {
        let t = trim_spaces(grid_row(s, cw, labels, texts, k - 1));
        if t.len() == 0 {
            grid_lines(s, cw, labels, texts, k - 1)
        } else {
            grid_lines(s, cw, labels, texts, k - 1).push(t)
        }
    }
}

/// All the drawn lines.
pub open spec fn drawing(s: Seq<usize>, cw: int, labels: bool, texts: Map<Cell, Seq<char>>) -> Seq<Seq<char>> {
    grid_lines(s, cw, labels, texts, 2 * s.len() + 1int)
}

/// The texts held as character vectors, as sequences.
pub open spec fn text_views(texts: Map<Cell, Vec<char>>) -> Map<Cell, Seq<char>> {
    texts.map_values(|t: Vec<char>| t@)
}

/// The lines joined with a newline between them.
pub open spec fn joined_lines(ls: Seq<Seq<char>>) -> Seq<char>
    decreases ls.len(),
{
    if ls.len() == 0 {
        Seq::empty()
    } else if ls.len() == 1 {
        ls[0]
    } else {
        joined_lines(ls.drop_last()) + seq!['\n'] + ls.last()
    }
}

/// Each line followed by a newline.
pub open spec fn terminated_lines(ls: Seq<Seq<char>>) -> Seq<char>
    decreases ls.len(),
{
    if ls.len() == 0 {
        Seq::empty()
    } else {
        terminated_lines(ls.drop_last()) + ls.last() + seq!['\n']
    }
}

fn corner(up: bool, down: bool, left: bool, right: bool) -> (c: char)
    ensures
        c == corner_char(up, down, left, right),
{
    if !up && down && !left && right {
        '┌'
    } else if !up && down && left && !right {
        '┐'
    } else if !up && down && left && right {
        '┬'
    } else if up && !down && !left && right {
        '└'
    } else if up && !down && left && !right {
        '┘'
    } else if up && !down && left && right {
        '┴'
    } else if up && down && !left && right {
        '├'
    } else if up && down && left && !right {
        '┤'
    } else if up && down && left && right {
        '┼'
    } else if !up && !down && (left || right) {
        '─'
    } else if (up || down) && !left && !right {
        '│'
    } else {
        ' '
    }
}

fn has_cell_exec(rows: &[usize], r: usize, c: usize) -> (b: bool)
    ensures
        b == has_cell(rows@, r as int, c as int),
{
    r >= 1 && c >= 1 && r <= rows.len() && c <= rows[r - 1]
}

/// Removes trailing spaces.
fn trim_line(line: &mut Vec<char>)
    ensures
        final(line)@ == trim_spaces(old(line)@),
{
    while line.len() > 0 && line[line.len() - 1] == ' '
        invariant
            trim_spaces(line@) == trim_spaces(old(line)@),
        decreases line.len(),
    {
        let ghost before = line@;
        line.pop();
        proof {
            assert(line@ =~= before.drop_last());
        }
    }
    proof {
        assert(trim_spaces(line@) == line@);
    }
}

/// Draws the rows `rows` with cells `cw` wide, the texts of `texts` in the cells when
/// `labels` holds; gives back the non-blank lines without trailing spaces.
pub fn draw(
    rows: &[usize],
    cw: usize,
    labels: bool,
    texts: &crate::filling::Filling<Vec<char>>,
) -> (r: Vec<Vec<char>>)
    requires
        1 <= cw < usize::MAX,
        grid_width(rows@, cw as int) <= usize::MAX,
        2 * rows@.len() + 1 <= usize::MAX,
        labels ==> forall|c: Cell| #[trigger] texts@.dom().contains(c) ==> texts@[c]@.len() <= cw,
    ensures
        r@.map_values(|l: Vec<char>| l@) == drawing(rows@, cw as int, labels, text_views(texts@)),
{
    let n_rows = rows.len();
    let n_cols: usize = if n_rows > 0 {
        rows[0]
    } else {
        0
    };
    let ghost s = rows@;
    let ghost f = text_views(texts@);
    let width = n_cols * (cw + 1) + 1;
    let mut out: Vec<Vec<char>> = Vec::new();
    let mut gi: usize = 0;
    while gi < 2 * n_rows + 1
        invariant
            gi <= 2 * n_rows + 1,
            n_rows == s.len(),
            s == rows@,
            f == text_views(texts@),
            1 <= cw < usize::MAX,
            width == grid_width(s, cw as int),
            2 * s.len() + 1 <= usize::MAX,
            labels ==> forall|c: Cell| #[trigger] texts@.dom().contains(c) ==> texts@[c]@.len() <= cw,
            out@.map_values(|l: Vec<char>| l@) == grid_lines(s, cw as int, labels, f, gi as int),
        decreases 2 * n_rows + 1 - gi,
    {
        let i = gi / 2;
        let mut line: Vec<char> = Vec::new();
        let mut gj: usize = 0;
        while gj < width
            invariant
                gj <= width,
                i == gi / 2,
                gi < 2 * n_rows + 1,
                n_rows == s.len(),
                s == rows@,
                f == text_views(texts@),
                1 <= cw < usize::MAX,
                width == grid_width(s, cw as int),
                labels ==> forall|c: Cell| #[trigger] texts@.dom().contains(c) ==> texts@[c]@.len() <= cw,
                line@ =~= grid_row(s, cw as int, labels, f, gi as int).take(gj as int),
            decreases width - gj,
        {
            let j = gj / (cw + 1);
            let o = gj % (cw + 1);
            let ch = if gi % 2 == 0 {
                if o == 0 {
                    let up = i != 0 && (has_cell_exec(rows, i, j + 1) || (j > 0 && has_cell_exec(rows, i, j)));
                    let down = has_cell_exec(rows, i + 1, j + 1) || (j > 0 && has_cell_exec(rows, i + 1, j));
                    let left = j != 0 && (has_cell_exec(rows, i + 1, j) || (i > 0 && has_cell_exec(rows, i, j)));
                    let right = has_cell_exec(rows, i + 1, j + 1) || (i > 0 && has_cell_exec(rows, i, j + 1));
                    corner(up, down, left, right)
                } else if has_cell_exec(rows, i + 1, j + 1) || (i > 0 && has_cell_exec(rows, i, j + 1)) {
                    '─'
                } else {
                    ' '
                }
            } else {
                if o == 0 {
                    if has_cell_exec(rows, i + 1, j + 1) || (j > 0 && has_cell_exec(rows, i + 1, j)) {
                        '│'
                    } else {
                        ' '
                    }
                } else if labels && has_cell_exec(rows, i + 1, j + 1) {
                    label_at(texts, cw, i + 1, j + 1, o - 1)
                } else {
                    ' '
                }
            };
            line.push(ch);
            proof {
                assert(ch == grid_char(s, cw as int, labels, f, gi as int, gj as int));
            }
            gj = gj + 1;
        }
        proof {
            assert(line@ =~= grid_row(s, cw as int, labels, f, gi as int));
        }
        trim_line(&mut line);
        let ghost before = out@;
        if line.len() > 0 {
            out.push(line);
            proof {
                assert(out@.map_values(|l: Vec<char>| l@) =~= before.map_values(|l: Vec<char>| l@).push(line@));
            }
        }
        gi = gi + 1;
    }
    proof {
        assert(gi == 2 * s.len() + 1);
    }
    out
}

/// The character at offset `o` of cell (`r`, `c`).
fn label_at(texts: &crate::filling::Filling<Vec<char>>, cw: usize, r: usize, c: usize, o: usize) -> (ch: char)
    requires
        forall|x: Cell| #[trigger] texts@.dom().contains(x) ==> texts@[x]@.len() <= cw,
    ensures
        ch == label_char(text_views(texts@), cw as int, r as int, c as int, o as int),
{
    match texts.get(&Cell::new(r, c)) {
        Some(text) => {
            let pad_left = (cw - text.len()) / 2;
            if pad_left <= o && o - pad_left < text.len() {
                text[o - pad_left]
            } else {
                ' '
            }
        },
        None => ' ',
    }
}

/// Joins the lines with a newline between them.
pub fn join_lines(lines: &Vec<Vec<char>>) -> (r: Vec<char>)
    ensures
        r@ == joined_lines(lines@.map_values(|l: Vec<char>| l@)),
{
    let ghost ls = lines@.map_values(|l: Vec<char>| l@);
    let mut out: Vec<char> = Vec::new();
    let mut k: usize = 0;
    while k < lines.len()
        invariant
            k <= lines@.len(),
            ls == lines@.map_values(|l: Vec<char>| l@),
            out@ == joined_lines(ls.take(k as int)),
        decreases lines.len() - k,
    {
        let ghost before = out@;
        if k > 0 {
            out.push('\n');
        }
        let line = &lines[k];
        let mut m: usize = 0;
        while m < line.len()
            invariant
                m <= line@.len(),
                out@ == (if k > 0 { before + seq!['\n'] } else { before }) + line@.take(m as int),
            decreases line.len() - m,
        {
            out.push(line[m]);
            proof {
                assert(line@.take(m + 1) =~= line@.take(m as int).push(line@[m as int]));
            }
            m = m + 1;
        }
        proof {
            assert(line@.take(m as int) =~= line@);
            assert(ls.take(k + 1).drop_last() =~= ls.take(k as int));
            assert(ls[k as int] == line@);
            if k == 0 {
                assert(ls.take(0) =~= Seq::<Seq<char>>::empty());
                assert(out@ =~= joined_lines(ls.take(1)));
            } else {
                assert(out@ =~= joined_lines(ls.take(k + 1)));
            }
        }
        k = k + 1;
    }
    proof {
        assert(ls.take(k as int) =~= ls);
    }
    out
}

/// Puts a newline after each line.
pub fn terminate_lines(lines: &Vec<Vec<char>>) -> (r: Vec<char>)
    ensures
        r@ == terminated_lines(lines@.map_values(|l: Vec<char>| l@)),
{
    let ghost ls = lines@.map_values(|l: Vec<char>| l@);
    let mut out: Vec<char> = Vec::new();
    let mut k: usize = 0;
    while k < lines.len()
        invariant
            k <= lines@.len(),
            ls == lines@.map_values(|l: Vec<char>| l@),
            out@ == terminated_lines(ls.take(k as int)),
        decreases lines.len() - k,
    {
        let ghost before = out@;
        let line = &lines[k];
        let mut m: usize = 0;
        while m < line.len()
            invariant
                m <= line@.len(),
                out@ == before + line@.take(m as int),
            decreases line.len() - m,
        {
            out.push(line[m]);
            proof {
                assert(line@.take(m + 1) =~= line@.take(m as int).push(line@[m as int]));
            }
            m = m + 1;
        }
        out.push('\n');
        proof {
            assert(line@.take(m as int) =~= line@);
            assert(ls.take(k + 1).drop_last() =~= ls.take(k as int));
            assert(ls[k as int] == line@);
            assert(out@ =~= terminated_lines(ls.take(k + 1)));
        }
        k = k + 1;
    }
    proof {
        assert(ls.take(k as int) =~= ls);
    }
    out
}

} // verus!
