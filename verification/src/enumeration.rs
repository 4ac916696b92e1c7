//! Listing every standard Young tableau of a shape by backtracking.
use vstd::prelude::*;
use crate::cell::{Cell, in_shape, before};
use crate::diagram::{YoungDiagram, diagram_cells, lemma_diagram_cells_order,
    lemma_diagram_cells_complete, lemma_diagram_cells_in, lemma_diagram_cells_len};
use crate::filling::Filling;
use crate::partition::{is_partition, seq_sum, lex_lt};
use crate::tableau::{StandardYoungTableau, is_standard, entries_ok, entry_ok, rows_increase,
    cols_increase};
use crate::words::{words_from, words_with_next, completes, lemma_words_from, lemma_words_sorted};

verus! {

/// The map that puts `w[k]` into `cells[k]`, for each `k` below the length of `w`.
pub open spec fn pairs_map(cells: Seq<Cell>, w: Seq<usize>) -> Map<Cell, usize>
    decreases w.len(),
{
    if w.len() == 0 {
        Map::empty()
    } else {
        pairs_map(cells, w.drop_last()).insert(cells[w.len() - 1], w.last())
    }
}

/// A word, read in the order of the cells, that fills the shape standardly.
pub open spec fn standard_word(s: Seq<usize>) -> spec_fn(Seq<usize>) -> bool {
    |w: Seq<usize>| is_standard(s, pairs_map(diagram_cells(s), w))
}

/// The values of a filling read in the order of the cells.
pub open spec fn reading_values(s: Seq<usize>, f: Map<Cell, usize>) -> Seq<usize> {
    diagram_cells(s).map_values(|c: Cell| f[c])
}

/// The cells of a shape, as a set.
pub open spec fn shape_cells(s: Seq<usize>) -> Set<Cell> {
    Set::new(|c: Cell| in_shape(s, c))
}

/// The fillings of the tableaux in a list.
pub open spec fn fillings(v: Seq<StandardYoungTableau>) -> Seq<Map<Cell, usize>> {
    v.map_values(|t: StandardYoungTableau| t.filling_view())
}

/// Cells listed in reading order are distinct.
pub open spec fn distinct_seq(cells: Seq<Cell>) -> bool {
    forall|a: int, b: int| 0 <= a < b < cells.len() ==> cells[a] != cells[b]
}

pub proof fn lemma_pairs_map(cells: Seq<Cell>, w: Seq<usize>)
    requires
        distinct_seq(cells),
        w.len() <= cells.len(),
    ensures
        forall|k: int|
            0 <= k < w.len() ==> pairs_map(cells, w).dom().contains(#[trigger] cells[k])
                && pairs_map(cells, w)[cells[k]] == w[k],
        forall|c: Cell|
            #[trigger] pairs_map(cells, w).dom().contains(c) ==> exists|k: int|
                0 <= k < w.len() && cells[k] == c,
    decreases w.len(),
{
    if w.len() > 0 {
        let t = w.drop_last();
        lemma_pairs_map(cells, t);
        let m = pairs_map(cells, w);
        assert forall|k: int| 0 <= k < w.len() implies m.dom().contains(#[trigger] cells[k])
            && m[cells[k]] == w[k] by {
            if k < t.len() {
                assert(cells[k] != cells[w.len() - 1]);
                assert(t[k] == w[k]);
            }
        }
        assert forall|c: Cell| #[trigger] m.dom().contains(c) implies exists|k: int|
            0 <= k < w.len() && cells[k] == c by {
            if c != cells[w.len() - 1] {
                assert(pairs_map(cells, t).dom().contains(c));
                let k = choose|k: int| 0 <= k < t.len() && cells[k] == c;
                assert(0 <= k < w.len() && cells[k] == c);
            } else {
                assert(cells[w.len() - 1] == c);
            }
        }
    }
}

/// Facts about the listed cells of a partition shape.
proof fn lemma_cells_facts(s: Seq<usize>)
    requires
        is_partition(s),
        s.len() <= usize::MAX,
    ensures
        distinct_seq(diagram_cells(s)),
        diagram_cells(s).len() == seq_sum(s),
        forall|k: int| 0 <= k < diagram_cells(s).len() ==> in_shape(s, #[trigger] diagram_cells(s)[k]),
        forall|c: Cell| in_shape(s, c) ==> exists|k: int|
            0 <= k < diagram_cells(s).len() && #[trigger] diagram_cells(s)[k] == c,
        forall|a: int, b: int|
            0 <= a < diagram_cells(s).len() && 0 <= b < diagram_cells(s).len() ==> (a < b <==> before(
                #[trigger] diagram_cells(s)[a],
                #[trigger] diagram_cells(s)[b],
            )),
{
    lemma_diagram_cells_order(s);
    lemma_diagram_cells_in(s);
    lemma_diagram_cells_len(s);
    let d = diagram_cells(s);
    assert forall|a: int, b: int| 0 <= a < b < d.len() implies d[a] != d[b] by {
        assert(before(d[a], d[b]));
    }
    assert forall|c: Cell| in_shape(s, c) implies exists|k: int| 0 <= k < d.len() && #[trigger] d[k] == c by {
        lemma_diagram_cells_complete(s, c);
    }
    assert forall|a: int, b: int| 0 <= a < d.len() && 0 <= b < d.len() implies (a < b <==> before(
        #[trigger] d[a],
        #[trigger] d[b],
    )) by {
        if b < a {
            assert(before(d[b], d[a]));
        }
    }
}

/// The filled cells so far hold distinct values from 1 to `n`, each larger than the value
/// in the cell to its left and the value in the cell above.
pub open spec fn partial_ok(s: Seq<usize>, f: Map<Cell, usize>) -> bool {
    &&& forall|c: Cell| #[trigger] f.dom().contains(c) ==> 1 <= f[c] <= seq_sum(s)
    &&& forall|c: Cell, d: Cell|
        #[trigger] f.dom().contains(c) && #[trigger] f.dom().contains(d) && c != d ==> f[c] != f[d]
    &&& forall|c: Cell|
        #[trigger] f.dom().contains(c) && c.col >= 2 ==> f.dom().contains(
            Cell { row: c.row, col: (c.col - 1) as usize },
        ) && f[Cell { row: c.row, col: (c.col - 1) as usize }] < f[c]
    &&& forall|c: Cell|
        #[trigger] f.dom().contains(c) && c.row >= 2 ==> f.dom().contains(
            Cell { row: (c.row - 1) as usize, col: c.col },
        ) && f[Cell { row: (c.row - 1) as usize, col: c.col }] < f[c]
}

/// Every standard tableau of `shape`, its values read in reading order increasing
/// lexicographically from one tableau to the next; none for the empty shape.
pub fn enumerate_standard_tableaux(shape: &YoungDiagram) -> (r: Vec<StandardYoungTableau>)
    requires
        seq_sum(shape@) < usize::MAX,
    ensures
        seq_sum(shape@) == 0 ==> r.len() == 0,
        seq_sum(shape@) > 0 ==> fillings(r@) == words_from(
            Seq::empty(),
            seq_sum(shape@) as nat,
            seq_sum(shape@) as nat,
            standard_word(shape@),
        ).map_values(|w: Seq<usize>| pairs_map(diagram_cells(shape@), w)),
        forall|i: int|
            0 <= i < r.len() ==> (#[trigger] r@[i]).shape_view() == shape@ && is_standard(
                shape@,
                r@[i].filling_view(),
            ) && r@[i].filling_view().dom() == shape_cells(shape@),
        forall|f: Map<Cell, usize>|
            seq_sum(shape@) > 0 && is_standard(shape@, f) && f.dom() == shape_cells(shape@)
                ==> #[trigger] fillings(r@).contains(f),
        forall|i: int, j: int|
            0 <= i < j < r.len() ==> lex_lt(
                reading_values(shape@, (#[trigger] r@[i]).filling_view()),
                reading_values(shape@, (#[trigger] r@[j]).filling_view()),
            ),
{
    shape.facts();
    let cells = shape.cells();
    let n = cells.len();
    proof {
        lemma_cells_facts(shape@);
    }
    if n == 0 {
        return Vec::new();
    }
    let mut result: Vec<StandardYoungTableau> = Vec::new();
    let mut current: Filling<usize> = Filling::new();
    let mut used: Vec<bool> = Vec::new();
    let mut k: usize = 0;
    while k <= n
        invariant
            k <= n + 1,
            n < usize::MAX,
            used@.len() == k,
            forall|v: int| 0 <= v < k ==> !used@[v],
        decreases n + 1 - k,
    {
        used.push(false);
        k = k + 1;
    }
    let ghost s = shape@;
    let ghost ok = standard_word(s);
    let ghost pm = |w: Seq<usize>| pairs_map(diagram_cells(s), w);
    proof {
        assert(pairs_map(cells@, Seq::<usize>::empty()) =~= current@);
        assert(fillings(result@) =~= Seq::<Map<Cell, usize>>::empty());
    }
    backtrack(shape, &cells, 0, &mut current, &mut used, &mut result, Ghost(Seq::empty()));
    proof {
        let all = words_from(Seq::empty(), n as nat, n as nat, ok);
        assert(fillings(result@) =~= all.map_values(pm));
        lemma_words_from(Seq::empty(), n as nat, n as nat, ok);
        lemma_words_sorted(Seq::empty(), n as nat, n as nat, ok);
        assert forall|i: int| 0 <= i < result.len() implies (#[trigger] result@[i]).shape_view()
            == shape@ && is_standard(shape@, result@[i].filling_view())
            && result@[i].filling_view().dom() == shape_cells(shape@) by {
            let w = all[i];
            assert(all.contains(w));
            assert(fillings(result@)[i] == pm(w));
            lemma_pairs_map(cells@, w);
            assert(pm(w).dom() =~= shape_cells(s)) by {
                assert forall|c: Cell| #[trigger] pm(w).dom().contains(c) <==> shape_cells(s).contains(c) by {
                    if in_shape(s, c) {
                        let k = choose|k: int| 0 <= k < cells@.len() && #[trigger] cells@[k] == c;
                    }
                }
            }
        }
        assert forall|f: Map<Cell, usize>|
            seq_sum(shape@) > 0 && is_standard(shape@, f) && f.dom() == shape_cells(shape@)
            implies #[trigger] fillings(result@).contains(f) by {
            let w = reading_values(s, f);
            lemma_pairs_map(cells@, w);
            assert(pm(w) =~= f) by {
                assert forall|c: Cell| #[trigger] pm(w).dom().contains(c) <==> f.dom().contains(c) by {
                    if f.dom().contains(c) {
                        assert(shape_cells(s).contains(c));
                        let k = choose|k: int| 0 <= k < cells@.len() && #[trigger] cells@[k] == c;
                    }
                    if pm(w).dom().contains(c) {
                        let k = choose|k: int| 0 <= k < w.len() && cells@[k] == c;
                        assert(shape_cells(s).contains(cells@[k]));
                    }
                }
                assert forall|c: Cell| #[trigger] pm(w).dom().contains(c) implies pm(w)[c] == f[c] by {
                    let k = choose|k: int| 0 <= k < w.len() && cells@[k] == c;
                }
            }
            assert(completes(w, Seq::empty(), n as nat, n as nat, ok)) by {
                assert(w.subrange(0, 0) =~= Seq::<usize>::empty());
                assert forall|i: int| 0 <= i < n implies 1 <= #[trigger] w[i] <= n by {
                    assert(shape_cells(s).contains(cells@[i]));
                    assert(entry_ok(s, f, cells@[i]));
                }
            }
            assert(all.contains(w));
            let i = choose|i: int| 0 <= i < all.len() && all[i] == w;
            assert(fillings(result@)[i] == f);
        }
        assert forall|i: int, j: int| 0 <= i < j < result.len() implies lex_lt(
            reading_values(shape@, (#[trigger] result@[i]).filling_view()),
            reading_values(shape@, (#[trigger] result@[j]).filling_view()),
        ) by {
            assert(fillings(result@)[i] == pm(all[i]));
            assert(fillings(result@)[j] == pm(all[j]));
            assert(all.contains(all[i]));
            assert(all.contains(all[j]));
            lemma_pairs_map(cells@, all[i]);
            lemma_pairs_map(cells@, all[j]);
            assert(reading_values(s, pm(all[i])) =~= all[i]);
            assert(reading_values(s, pm(all[j])) =~= all[j]);
        }
    }
    result
}


/// A prefix whose cell at `pos` repeats the value of cell `j`, or is not larger than the
/// value in cell `j` to its left or above it, has no standard completion.
proof fn lemma_prunes(s: Seq<usize>, next: Seq<usize>, j: int, pos: int)
    requires
        is_partition(s),
        s.len() <= usize::MAX,
        0 <= j < pos,
        pos == next.len() - 1,
        next.len() <= seq_sum(s),
        seq_sum(s) < usize::MAX,
        ({
            let cells = diagram_cells(s);
            let cell = cells[pos];
            let other = cells[j];
            ||| next[j] == next[pos]
            ||| (cell.col >= 2 && other == Cell { row: cell.row, col: (cell.col - 1) as usize } && next[j] >= next[pos])
            ||| (cell.row >= 2 && other == Cell { row: (cell.row - 1) as usize, col: cell.col } && next[j] >= next[pos])
        }),
    ensures
        words_from(next, seq_sum(s) as nat, seq_sum(s) as nat, standard_word(s)).len() == 0,
{
    let n = seq_sum(s) as nat;
    let ok = standard_word(s);
    let cells = diagram_cells(s);
    lemma_cells_facts(s);
    lemma_words_from(next, n, n, ok);
    assert forall|w: Seq<usize>| !completes(w, next, n, n, ok) by {
        if completes(w, next, n, n, ok) {
            let f = pairs_map(cells, w);
            lemma_pairs_map(cells, w);
            assert(w[j] == w.subrange(0, next.len() as int)[j]);
            assert(w[pos] == w.subrange(0, next.len() as int)[pos]);
            let cell = cells[pos];
            assert(in_shape(s, cell));
            assert(before(cells[j], cell));
            if next[j] == next[pos] {
                assert(f[cells[j]] == f[cell]);
                assert(!entry_ok(s, f, cell));
            } else if cell.col >= 2 && cells[j] == (Cell { row: cell.row, col: (cell.col - 1) as usize }) && next[j] >= next[pos] {
                assert(!rows_increase(s, f));
            } else {
                assert(!cols_increase(s, f));
            }
        }
    }
    let ws = words_from(next, n, n, ok);
    if ws.len() > 0 {
        assert(ws.contains(ws[0]));
    }
}

/// Adding a value that repeats no earlier one and exceeds its neighbours keeps the
/// filling standard so far.
#[verifier::rlimit(40)]
proof fn lemma_extend(s: Seq<usize>, vals: Seq<usize>, num: usize)
    requires
        is_partition(s),
        s.len() <= usize::MAX,
        vals.len() < seq_sum(s),
        1 <= num <= seq_sum(s),
        partial_ok(s, pairs_map(diagram_cells(s), vals)),
        forall|j: int| 0 <= j < vals.len() ==> vals[j] != num,
        ({
            let cells = diagram_cells(s);
            let cell = cells[vals.len() as int];
            let f = pairs_map(cells, vals);
            &&& cell.col >= 2 ==> f[Cell { row: cell.row, col: (cell.col - 1) as usize }] < num
            &&& cell.row >= 2 ==> f[Cell { row: (cell.row - 1) as usize, col: cell.col }] < num
        }),
    ensures
        partial_ok(s, pairs_map(diagram_cells(s), vals.push(num))),
        pairs_map(diagram_cells(s), vals.push(num)) == pairs_map(diagram_cells(s), vals).insert(
            diagram_cells(s)[vals.len() as int],
            num,
        ),
        !pairs_map(diagram_cells(s), vals).dom().contains(diagram_cells(s)[vals.len() as int]),
{
    let cells = diagram_cells(s);
    let pos = vals.len() as int;
    let cell = cells[pos];
    let next = vals.push(num);
    lemma_cells_facts(s);
    lemma_pairs_map(cells, vals);
    lemma_pairs_map(cells, next);
    assert(next.drop_last() =~= vals);
    let f0 = pairs_map(cells, vals);
    let f = pairs_map(cells, next);
    assert(in_shape(s, cell));
    assert(!f0.dom().contains(cell)) by {
        if f0.dom().contains(cell) {
            let j = choose|j: int| 0 <= j < vals.len() && cells[j] == cell;
        }
    }
    if cell.col >= 2 {
        let left = Cell { row: cell.row, col: (cell.col - 1) as usize };
        assert(in_shape(s, left));
        let j = choose|j: int| 0 <= j < cells.len() && #[trigger] cells[j] == left;
        assert(before(left, cell));
        assert(f0.dom().contains(left));
    }
    if cell.row >= 2 {
        let up = Cell { row: (cell.row - 1) as usize, col: cell.col };
        assert(s[cell.row - 1] <= s[cell.row - 2]);
        assert(in_shape(s, up));
        let j = choose|j: int| 0 <= j < cells.len() && #[trigger] cells[j] == up;
        assert(before(up, cell));
        assert(f0.dom().contains(up));
    }
    assert(f == f0.insert(cell, num));
    assert forall|c: Cell| #[trigger] f.dom().contains(c) implies 1 <= f[c] <= seq_sum(s) by {
        if c != cell {
            assert(f0.dom().contains(c));
        }
    }
    assert forall|c: Cell, d: Cell|
        #[trigger] f.dom().contains(c) && #[trigger] f.dom().contains(d) && c != d implies f[c] != f[d] by {
        if c == cell && d != cell {
            let j = choose|j: int| 0 <= j < vals.len() && cells[j] == d;
        } else if d == cell && c != cell {
            let j = choose|j: int| 0 <= j < vals.len() && cells[j] == c;
        } else {
            assert(f0.dom().contains(c) && f0.dom().contains(d));
        }
    }
    assert forall|c: Cell|
        #[trigger] f.dom().contains(c) && c.col >= 2 implies f.dom().contains(
            Cell { row: c.row, col: (c.col - 1) as usize },
        ) && f[Cell { row: c.row, col: (c.col - 1) as usize }] < f[c] by {
        if c != cell {
            assert(f0.dom().contains(c));
            assert(f0.dom().contains(Cell { row: c.row, col: (c.col - 1) as usize }));
        }
    }
    assert forall|c: Cell|
        #[trigger] f.dom().contains(c) && c.row >= 2 implies f.dom().contains(
            Cell { row: (c.row - 1) as usize, col: c.col },
        ) && f[Cell { row: (c.row - 1) as usize, col: c.col }] < f[c] by {
        if c != cell {
            assert(f0.dom().contains(c));
            assert(f0.dom().contains(Cell { row: (c.row - 1) as usize, col: c.col }));
        }
    }
}

/// Fills the cells from position `pos` on with every value that keeps the filling
/// standard so far, appending each completed tableau to `result`.
fn backtrack(
    shape: &YoungDiagram,
    cells: &Vec<Cell>,
    pos: usize,
    current: &mut Filling<usize>,
    used: &mut Vec<bool>,
    result: &mut Vec<StandardYoungTableau>,
    Ghost(vals): Ghost<Seq<usize>>,
)
    requires
        is_partition(shape@),
        shape@.len() <= usize::MAX,
        seq_sum(shape@) < usize::MAX,
        cells@ == diagram_cells(shape@),
        pos == vals.len(),
        pos <= cells@.len(),
        old(current)@ == pairs_map(cells@, vals),
        partial_ok(shape@, old(current)@),
        old(used)@.len() == cells@.len() + 1,
        forall|v: int|
            0 <= v <= cells@.len() ==> (old(used)@[v] <==> exists|j: int|
                0 <= j < pos && #[trigger] vals[j] == v),
        forall|i: int| 0 <= i < old(result)@.len() ==> (#[trigger] old(result)@[i]).shape_view() == shape@,
    ensures
        final(current)@ == old(current)@,
        final(used)@ == old(used)@,
        forall|i: int| 0 <= i < final(result)@.len() ==> (#[trigger] final(result)@[i]).shape_view() == shape@,
        fillings(final(result)@) == fillings(old(result)@) + words_from(
            vals,
            cells@.len() as nat,
            cells@.len() as nat,
            standard_word(shape@),
        ).map_values(|w: Seq<usize>| pairs_map(diagram_cells(shape@), w)),
    decreases cells@.len() - pos,
{
    let ghost s = shape@;
    let ghost n = cells@.len();
    let ghost ok = standard_word(s);
    let ghost pm = |w: Seq<usize>| pairs_map(diagram_cells(s), w);
    let ghost start = fillings(result@);
    proof {
        lemma_cells_facts(s);
        lemma_pairs_map(cells@, vals);
    }
    if pos == cells.len() {
        proof {
            // A complete filling that is standard so far is standard.
            let f = current@;
            assert forall|c: Cell| in_shape(s, c) implies f.dom().contains(c) by {
                let k = choose|k: int| 0 <= k < cells@.len() && #[trigger] cells@[k] == c;
            }
            assert(entries_ok(s, f)) by {
                assert forall|c: Cell| in_shape(s, c) implies #[trigger] entry_ok(s, f, c) by {
                    assert(f.dom().contains(c));
                }
            }
            assert(rows_increase(s, f));
            assert(cols_increase(s, f));
            assert(ok(vals));
            assert(words_from(vals, n as nat, n as nat, ok) =~= seq![vals]);
        }
        let t = StandardYoungTableau::from_trusted(shape.clone(), current.clone());
        result.push(t);
        proof {
            assert(fillings(result@) =~= start + words_from(vals, n as nat, n as nat, ok).map_values(pm));
        }
        return;
    }
    let cell = cells[pos];
    let total = cells.len();
    proof {
        assert(in_shape(s, cell));
        assert(words_from(vals, n as nat, n as nat, ok) == words_with_next(vals, n as nat, n as nat, ok, 1));
        assert(fillings(result@) + words_with_next(vals, n as nat, n as nat, ok, 1).map_values(pm)
            =~= start + words_from(vals, n as nat, n as nat, ok).map_values(pm));
    }
    let mut num: usize = 1;
    while num <= total
        invariant
            1 <= num <= total + 1,
            total == n,
            n == cells@.len(),
            n == seq_sum(s),
            n < usize::MAX,
            pos < n,
            pos == vals.len(),
            s == shape@,
            is_partition(s),
            s.len() <= usize::MAX,
            cells@ == diagram_cells(s),
            cell == cells@[pos as int],
            in_shape(s, cell),
            ok == standard_word(s),
            pm == (|w: Seq<usize>| pairs_map(diagram_cells(s), w)),
            current@ == pairs_map(cells@, vals),
            partial_ok(s, current@),
            used@.len() == n + 1,
            forall|v: int|
                0 <= v <= n ==> (used@[v] <==> exists|j: int| 0 <= j < pos && #[trigger] vals[j] == v),
            forall|i: int| 0 <= i < result@.len() ==> (#[trigger] result@[i]).shape_view() == s,
            fillings(result@) + words_with_next(vals, n as nat, n as nat, ok, num as nat).map_values(pm)
                == start + words_from(vals, n as nat, n as nat, ok).map_values(pm),
        decreases total + 1 - num,
    {
        let ghost next = vals.push(num);
        let ghost before_step = fillings(result@);
        proof {
            lemma_cells_facts(s);
            lemma_pairs_map(cells@, vals);
            assert(words_with_next(vals, n as nat, n as nat, ok, num as nat) == words_from(
                next,
                n as nat,
                n as nat,
                ok,
            ) + words_with_next(vals, n as nat, n as nat, ok, (num + 1) as nat));
            assert((words_from(next, n as nat, n as nat, ok) + words_with_next(
                vals,
                n as nat,
                n as nat,
                ok,
                (num + 1) as nat,
            )).map_values(pm) =~= words_from(next, n as nat, n as nat, ok).map_values(pm)
                + words_with_next(vals, n as nat, n as nat, ok, (num + 1) as nat).map_values(pm));
            lemma_words_from(next, n as nat, n as nat, ok);
        }
        let mut skip = used[num];
        if skip {
            proof {
                let j = choose|j: int| 0 <= j < pos && #[trigger] vals[j] == num as int;
                lemma_prunes(s, next, j, pos as int);
            }
        }
        if !skip && cell.col > 1 {
            let left = Cell::new(cell.row, cell.col - 1);
            match current.get(&left) {
                Some(lv) => {
                    if *lv >= num {
                        skip = true;
                        proof {
                            let j = choose|j: int| 0 <= j < vals.len() && cells@[j] == left;
                            lemma_prunes(s, next, j, pos as int);
                        }
                    }
                },
                None => {},
            }
        }
        if !skip && cell.row > 1 {
            let up = Cell::new(cell.row - 1, cell.col);
            match current.get(&up) {
                Some(uv) => {
                    if *uv >= num {
                        skip = true;
                        proof {
                            let j = choose|j: int| 0 <= j < vals.len() && cells@[j] == up;
                            lemma_prunes(s, next, j, pos as int);
                        }
                    }
                },
                None => {},
            }
        }
        if skip {
            proof {
                assert(words_from(next, n as nat, n as nat, ok).map_values(pm) =~= Seq::<Map<Cell, usize>>::empty());
                assert(fillings(result@) + words_with_next(vals, n as nat, n as nat, ok, (num + 1) as nat).map_values(pm)
                    =~= start + words_from(vals, n as nat, n as nat, ok).map_values(pm));
            }
        } else {
            proof {
                assert forall|j: int| 0 <= j < vals.len() implies vals[j] != num by {
                    if vals[j] == num {
                        assert(used@[num as int]);
                    }
                }
                let left = Cell { row: cell.row, col: (cell.col - 1) as usize };
                let up = Cell { row: (cell.row - 1) as usize, col: cell.col };
                if cell.col >= 2 {
                    assert(in_shape(s, left));
                    let j = choose|j: int| 0 <= j < cells@.len() && #[trigger] cells@[j] == left;
                    assert(before(left, cell));
                    assert(current@.dom().contains(left));
                }
                if cell.row >= 2 {
                    assert(s[cell.row - 1] <= s[cell.row - 2]);
                    assert(in_shape(s, up));
                    let j = choose|j: int| 0 <= j < cells@.len() && #[trigger] cells@[j] == up;
                    assert(before(up, cell));
                    assert(current@.dom().contains(up));
                }
                lemma_extend(s, vals, num);
            }
            used.set(num, true);
            current.insert(cell, num);
            proof {
                assert forall|v: int| 0 <= v <= n implies (used@[v] <==> exists|j: int|
                    0 <= j < pos + 1 && #[trigger] next[j] == v) by {
                    if v == num {
                        assert(next[pos as int] == v);
                    } else if exists|j: int| 0 <= j < pos + 1 && #[trigger] next[j] == v {
                        let j = choose|j: int| 0 <= j < pos + 1 && #[trigger] next[j] == v;
                        assert(vals[j] == v);
                    } else {
                        if used@[v] {
                            let j = choose|j: int| 0 <= j < pos && #[trigger] vals[j] == v;
                            assert(next[j] == v);
                        }
                    }
                }
            }
            backtrack(shape, cells, pos + 1, current, used, result, Ghost(next));
            current.remove(&cell);
            used.set(num, false);
            proof {
                assert(current@ =~= pairs_map(cells@, vals));
                assert(fillings(result@) + words_with_next(vals, n as nat, n as nat, ok, (num + 1) as nat).map_values(pm)
                    =~= start + words_from(vals, n as nat, n as nat, ok).map_values(pm));
            }
        }
        num = num + 1;
    }
    proof {
        assert(words_with_next(vals, n as nat, n as nat, ok, num as nat).map_values(pm)
            =~= Seq::<Map<Cell, usize>>::empty());
        assert(fillings(result@) =~= start + words_from(vals, n as nat, n as nat, ok).map_values(pm));
    }
}

} // verus!
