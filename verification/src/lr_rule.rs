//! Littlewood-Richardson coefficients and the decomposition of tensor products.
use vstd::prelude::*;
use crate::cell::{Cell, cell_in, in_shape, before};
use crate::diagram::{YoungDiagram, diagram_cells, row_cells, lemma_diagram_cells_order,
    lemma_diagram_cells_complete, lemma_diagram_cells_in, lemma_conjugate_includes};
use crate::enumeration::{pairs_map, lemma_pairs_map, distinct_seq};
use crate::filling::Filling;
use crate::partition::{Partition, is_partition, part_at, seq_sum, includes, lemma_seq_sum_nonneg,
    views, strictly_decreasing, lex_lt, nonincreasing};
use rayon::iter::{IntoParallelRefIterator, ParallelIterator};
use crate::skew::{SkewShape, skew_cells, outside, reading_word_of, count_of, is_lattice,
    reading_word, is_lattice_word, lemma_outside_in};
use crate::strips::{strip_word, lemma_pieri_counts_strip_words};
use crate::words::{words_from, words_with_next, completes, lemma_words_from, lemma_words_count,
    lemma_pow_nonneg};
use vstd::arithmetic::power::{pow, lemma_pow_positive};

use crate::lr_strips::lemma_pieri_count_is_lr;
verus! {

broadcast use {Partition::lemma_valid, YoungDiagram::lemma_valid, SkewShape::lemma_valid};

/// The cell lies in the skew shape `outer / inner`.
pub open spec fn in_skew(outer: Seq<usize>, inner: Seq<usize>, c: Cell) -> bool {
    in_shape(outer, c) && !cell_in(inner, c)
}

/// The cell to the left.
pub open spec fn left_of(c: Cell) -> Cell {
    Cell { row: c.row, col: (c.col - 1) as usize }
}

/// The cell above.
pub open spec fn above(c: Cell) -> Cell {
    Cell { row: (c.row - 1) as usize, col: c.col }
}

/// Values weakly increase along rows of the skew shape.
pub open spec fn rows_weak(outer: Seq<usize>, inner: Seq<usize>, f: Map<Cell, usize>) -> bool {
    forall|c: Cell|
        in_skew(outer, inner, c) && c.col >= 2 && in_skew(outer, inner, left_of(c)) ==> f[left_of(c)]
            <= #[trigger] f[c]
}

/// Values strictly increase down columns of the skew shape.
pub open spec fn cols_strict(outer: Seq<usize>, inner: Seq<usize>, f: Map<Cell, usize>) -> bool {
    forall|c: Cell|
        in_skew(outer, inner, c) && c.row >= 2 && in_skew(outer, inner, above(c)) ==> f[above(c)]
            < #[trigger] f[c]
}

/// The word holds `mu[v - 1]` copies of each letter `v`.
pub open spec fn has_content(w: Seq<usize>, mu: Seq<usize>) -> bool {
    forall|v: int| 1 <= v <= mu.len() ==> #[trigger] count_of(w, v) == mu[v - 1]
}

/// A word, read in the order of the skew cells, that fills `outer / inner` as a
/// Littlewood-Richardson tableau of content `mu`: semistandard, with a lattice reading word.
pub open spec fn lr_word(outer: Seq<usize>, inner: Seq<usize>, mu: Seq<usize>) -> spec_fn(
    Seq<usize>,
) -> bool {
    |w: Seq<usize>|
        {
            let cells = skew_cells(outer, inner);
            let f = pairs_map(cells, w);
            &&& has_content(w, mu)
            &&& rows_weak(outer, inner, f)
            &&& cols_strict(outer, inner, f)
            &&& is_lattice(reading_word_of(cells, outer.len() as int, f))
        }
}

/// The Littlewood-Richardson tableaux of shape `outer / inner` and content `mu`, as words.
pub open spec fn lr_tableaux(outer: Seq<usize>, inner: Seq<usize>, mu: Seq<usize>) -> Seq<
    Seq<usize>,
> {
    words_from(Seq::empty(), skew_cells(outer, inner).len(), mu.len(), lr_word(outer, inner, mu))
}

/// The Littlewood-Richardson coefficient: the multiplicity of `nu` in `lambda ⊗ mu`.
pub open spec fn lr_value(lambda: Seq<usize>, mu: Seq<usize>, nu: Seq<usize>) -> nat {
    if seq_sum(nu) != seq_sum(lambda) + seq_sum(mu) || !includes(nu, lambda) {
        0
    } else {
        lr_tableaux(nu, lambda, mu).len()
    }
}

// ----- counting letters -----

/// Total number of letters `1..=k` in `w`.
pub open spec fn letters_up_to(w: Seq<usize>, k: int) -> int
    decreases k,
{
    if k <= 0 {
        0
    } else {
        letters_up_to(w, k - 1) + count_of(w, k)
    }
}

proof fn lemma_count_push(w: Seq<usize>, x: usize, v: int)
    ensures
        count_of(w.push(x), v) == count_of(w, v) + (if x == v {
            1int
        } else {
            0int
        }),
{
    assert(w.push(x).drop_last() =~= w);
}

proof fn lemma_letters_push(w: Seq<usize>, x: usize, k: int)
    ensures
        letters_up_to(w.push(x), k) == letters_up_to(w, k) + (if 1 <= x <= k {
            1int
        } else {
            0int
        }),
    decreases k,
{
    if k > 0 {
        lemma_letters_push(w, x, k - 1);
        lemma_count_push(w, x, k);
    }
}

proof fn lemma_letters_len(w: Seq<usize>, m: int)
    requires
        forall|i: int| 0 <= i < w.len() ==> 1 <= #[trigger] w[i] <= m,
    ensures
        letters_up_to(w, m) == w.len(),
    decreases w.len(),
{
    if w.len() == 0 {
        lemma_letters_empty(w, m);
    } else {
        let t = w.drop_last();
        lemma_letters_len(t, m);
        assert(t.push(w.last()) =~= w);
        lemma_letters_push(t, w.last(), m);
    }
}

proof fn lemma_letters_empty(w: Seq<usize>, k: int)
    requires
        w.len() == 0,
    ensures
        letters_up_to(w, k) == 0,
    decreases k,
{
    if k > 0 {
        lemma_letters_empty(w, k - 1);
    }
}

proof fn lemma_letters_gap(w: Seq<usize>, mu: Seq<usize>, k: int, j: int)
    requires
        0 <= k <= mu.len(),
        1 <= j <= k,
        forall|v: int| 1 <= v <= mu.len() ==> #[trigger] count_of(w, v) <= mu[v - 1],
    ensures
        seq_sum(mu.take(k)) - letters_up_to(w, k) >= mu[j - 1] - count_of(w, j),
    decreases k,
{
    assert(mu.take(k).drop_last() =~= mu.take(k - 1));
    assert(mu.take(k).last() == mu[k - 1]);
    assert(seq_sum(mu.take(k)) == seq_sum(mu.take(k - 1)) + mu[k - 1]);
    assert(letters_up_to(w, k) == letters_up_to(w, k - 1) + count_of(w, k));
    assert(count_of(w, k) <= mu[k - 1]);
    if j < k {
        lemma_letters_gap(w, mu, k - 1, j);
    } else {
        lemma_letters_nonneg_gap(w, mu, k - 1);
    }
}

proof fn lemma_letters_nonneg_gap(w: Seq<usize>, mu: Seq<usize>, k: int)
    requires
        0 <= k <= mu.len(),
        forall|v: int| 1 <= v <= mu.len() ==> #[trigger] count_of(w, v) <= mu[v - 1],
    ensures
        seq_sum(mu.take(k)) - letters_up_to(w, k) >= 0,
    decreases k,
{
    if k > 0 {
        assert(mu.take(k).drop_last() =~= mu.take(k - 1));
        assert(mu.take(k).last() == mu[k - 1]);
        assert(count_of(w, k) <= mu[k - 1]);
        lemma_letters_nonneg_gap(w, mu, k - 1);
    } else {
        assert(mu.take(0) =~= Seq::<usize>::empty());
    }
}

/// A word over `1..=m` that uses each letter at most as often as `mu` allows, and is as
/// long as `mu` is large, uses each letter exactly that often.
proof fn lemma_content_exact(w: Seq<usize>, mu: Seq<usize>)
    requires
        forall|i: int| 0 <= i < w.len() ==> 1 <= #[trigger] w[i] <= mu.len(),
        forall|v: int| 1 <= v <= mu.len() ==> #[trigger] count_of(w, v) <= mu[v - 1],
        w.len() == seq_sum(mu),
    ensures
        has_content(w, mu),
{
    lemma_letters_len(w, mu.len() as int);
    assert(mu.take(mu.len() as int) =~= mu);
    assert forall|v: int| 1 <= v <= mu.len() implies #[trigger] count_of(w, v) == mu[v - 1] by {
        lemma_letters_gap(w, mu, mu.len() as int, v);
    }
}

/// Letters counted in a prefix are counted in the whole word.
proof fn lemma_count_prefix_le(w: Seq<usize>, k: int, v: int)
    requires
        0 <= k <= w.len(),
    ensures
        count_of(w.subrange(0, k), v) <= count_of(w, v),
    decreases w.len() - k,
{
    if k < w.len() {
        lemma_count_prefix_le(w, k + 1, v);
        assert(w.subrange(0, k + 1).drop_last() =~= w.subrange(0, k));
    } else {
        assert(w.subrange(0, k) =~= w);
    }
}

// ----- the cells of a skew shape -----

pub proof fn lemma_outside_concat(a: Seq<Cell>, b: Seq<Cell>, inner: Seq<usize>)
    ensures
        outside(a + b, inner) == outside(a, inner) + outside(b, inner),
    decreases b.len(),
{
    if b.len() == 0 {
        assert(a + b =~= a);
        assert(outside(a, inner) + outside(b, inner) =~= outside(a, inner));
    } else {
        lemma_outside_concat(a, b.drop_last(), inner);
        assert((a + b).drop_last() =~= a + b.drop_last());
        assert((a + b).last() == b.last());
        assert(outside(a + b, inner) =~= outside(a, inner) + outside(b, inner));
    }
}

proof fn lemma_outside_row(r: int, len: int, inner: Seq<usize>)
    requires
        1 <= r <= usize::MAX,
        0 <= len <= usize::MAX,
    ensures
        outside(row_cells(r, len), inner).len() == len - (if len < part_at(inner, r - 1) {
            len
        } else {
            part_at(inner, r - 1)
        }),
    decreases len,
{
    if len > 0 {
        lemma_outside_row(r, len - 1, inner);
        assert(row_cells(r, len).drop_last() =~= row_cells(r, len - 1));
        let c = row_cells(r, len).last();
        assert(c == Cell { row: r as usize, col: len as usize });
        assert(cell_in(inner, c) <==> len <= part_at(inner, r - 1));
    } else {
        assert(row_cells(r, 0) =~= Seq::<Cell>::empty());
    }
}

/// Cells of each row beyond the inner shape.
pub open spec fn skew_total(s: Seq<usize>, inner: Seq<usize>) -> int
    decreases s.len(),
{
    if s.len() == 0 {
        0
    } else {
        let p = part_at(inner, s.len() - 1);
        skew_total(s.drop_last(), inner) + s.last() - (if s.last() < p {
            s.last() as int
        } else {
            p
        })
    }
}

/// The sum of the first `n` parts (zero past the end).
pub open spec fn parts_before(s: Seq<usize>, n: int) -> int
    decreases n,
{
    if n <= 0 {
        0
    } else {
        parts_before(s, n - 1) + part_at(s, n - 1)
    }
}

proof fn lemma_outside_diagram(s: Seq<usize>, inner: Seq<usize>)
    requires
        s.len() <= usize::MAX,
    ensures
        outside(diagram_cells(s), inner).len() == skew_total(s, inner),
    decreases s.len(),
{
    if s.len() > 0 {
        let t = s.drop_last();
        lemma_outside_diagram(t, inner);
        lemma_outside_concat(diagram_cells(t), row_cells(s.len() as int, s.last() as int), inner);
        lemma_outside_row(s.len() as int, s.last() as int, inner);
    }
}

proof fn lemma_skew_total(s: Seq<usize>, inner: Seq<usize>)
    requires
        forall|r: int| 0 <= r < s.len() ==> part_at(inner, r) <= s[r],
    ensures
        skew_total(s, inner) == seq_sum(s) - parts_before(inner, s.len() as int),
    decreases s.len(),
{
    if s.len() > 0 {
        let t = s.drop_last();
        assert forall|r: int| 0 <= r < t.len() implies part_at(inner, r) <= t[r] by {
            assert(t[r] == s[r]);
        }
        lemma_skew_total(t, inner);
    }
}

pub proof fn lemma_parts_before(s: Seq<usize>, n: int)
    requires
        0 <= n,
    ensures
        n <= s.len() ==> parts_before(s, n) == seq_sum(s.take(n)),
        n >= s.len() ==> parts_before(s, n) == seq_sum(s),
    decreases n,
{
    if n > 0 {
        lemma_parts_before(s, n - 1);
        if n <= s.len() {
            assert(s.take(n).drop_last() =~= s.take(n - 1));
        }
        if n - 1 >= s.len() {
        } else if n == s.len() {
            assert(s.take(n) =~= s);
        }
    } else {
        assert(s.take(0) =~= Seq::<usize>::empty());
        if s.len() == 0 {
            assert(seq_sum(s) == 0);
        }
    }
}

/// A skew shape has as many cells as the outer shape minus the inner one.
pub proof fn lemma_skew_size(outer: Seq<usize>, inner: Seq<usize>)
    requires
        is_partition(outer),
        is_partition(inner),
        outer.len() <= usize::MAX,
        includes(outer, inner),
    ensures
        skew_cells(outer, inner).len() == seq_sum(outer) - seq_sum(inner),
{
    lemma_outside_diagram(outer, inner);
    assert forall|r: int| 0 <= r < outer.len() implies part_at(inner, r) <= outer[r] by {
        assert(part_at(inner, r) <= part_at(outer, r));
    }
    lemma_skew_total(outer, inner);
    if inner.len() > 0 {
        assert(part_at(inner, inner.len() - 1) <= part_at(outer, inner.len() - 1));
    }
    lemma_parts_before(inner, outer.len() as int);
}

proof fn lemma_outside_order(cells: Seq<Cell>, inner: Seq<usize>)
    requires
        forall|a: int, b: int| 0 <= a < b < cells.len() ==> before(#[trigger] cells[a], #[trigger] cells[b]),
    ensures
        forall|a: int, b: int|
            0 <= a < b < outside(cells, inner).len() ==> before(
                #[trigger] outside(cells, inner)[a],
                #[trigger] outside(cells, inner)[b],
            ),
    decreases cells.len(),
{
    if cells.len() > 0 {
        let t = cells.drop_last();
        lemma_outside_order(t, inner);
        lemma_outside_in(t, inner);
        let o = outside(cells, inner);
        let ot = outside(t, inner);
        assert forall|a: int, b: int| 0 <= a < b < o.len() implies before(#[trigger] o[a], #[trigger] o[b]) by {
            if b < ot.len() {
                assert(o[a] == ot[a] && o[b] == ot[b]);
            } else {
                assert(o[a] == ot[a]);
                assert(t.contains(ot[a]));
                let j = choose|j: int| 0 <= j < t.len() && t[j] == ot[a];
                assert(cells[j] == ot[a]);
                assert(o[b] == cells[cells.len() - 1]);
            }
        }
    }
}

/// Facts about the listed cells of a skew shape.
pub proof fn lemma_skew_facts(outer: Seq<usize>, inner: Seq<usize>)
    requires
        is_partition(outer),
        outer.len() <= usize::MAX,
    ensures
        distinct_seq(skew_cells(outer, inner)),
        forall|k: int| 0 <= k < skew_cells(outer, inner).len() ==> in_skew(outer, inner, #[trigger] skew_cells(outer, inner)[k]),
        forall|c: Cell| in_skew(outer, inner, c) ==> exists|k: int|
            0 <= k < skew_cells(outer, inner).len() && #[trigger] skew_cells(outer, inner)[k] == c,
        forall|a: int, b: int|
            0 <= a < skew_cells(outer, inner).len() && 0 <= b < skew_cells(outer, inner).len() ==> (a < b <==> before(
                #[trigger] skew_cells(outer, inner)[a],
                #[trigger] skew_cells(outer, inner)[b],
            )),
{
    let d = diagram_cells(outer);
    let sc = skew_cells(outer, inner);
    lemma_diagram_cells_order(outer);
    lemma_diagram_cells_in(outer);
    lemma_outside_order(d, inner);
    lemma_outside_in(d, inner);
    assert forall|a: int, b: int| 0 <= a < b < sc.len() implies sc[a] != sc[b] by {
        assert(before(sc[a], sc[b]));
    }
    assert forall|k: int| 0 <= k < sc.len() implies in_skew(outer, inner, #[trigger] sc[k]) by {
        assert(d.contains(sc[k]));
        let j = choose|j: int| 0 <= j < d.len() && d[j] == sc[k];
    }
    assert forall|c: Cell| in_skew(outer, inner, c) implies exists|k: int| 0 <= k < sc.len() && #[trigger] sc[k] == c by {
        lemma_diagram_cells_complete(outer, c);
        let j = choose|j: int| 0 <= j < d.len() && #[trigger] d[j] == c;
        assert(sc.contains(d[j]));
    }
    assert forall|a: int, b: int| 0 <= a < sc.len() && 0 <= b < sc.len() implies (a < b <==> before(
        #[trigger] sc[a],
        #[trigger] sc[b],
    )) by {
        if b < a {
            assert(before(sc[b], sc[a]));
        }
    }
}

// ----- counting the tableaux -----

/// The filled cells hold letters `1..=m` that weakly increase along rows and strictly
/// increase down columns, the neighbours to the left and above being filled first.
pub open spec fn partial_lr(outer: Seq<usize>, inner: Seq<usize>, m: int, f: Map<Cell, usize>) -> bool {
    &&& forall|c: Cell| #[trigger] f.dom().contains(c) ==> 1 <= f[c] <= m
    &&& forall|c: Cell|
        #[trigger] f.dom().contains(c) && c.col >= 2 && in_skew(outer, inner, left_of(c)) ==> f.dom().contains(left_of(c))
            && f[left_of(c)] <= f[c]
    &&& forall|c: Cell|
        #[trigger] f.dom().contains(c) && c.row >= 2 && in_skew(outer, inner, above(c)) ==> f.dom().contains(above(c))
            && f[above(c)] < f[c]
}

/// A prefix that already breaks a rule has no Littlewood-Richardson completion.
proof fn lemma_lr_prunes(outer: Seq<usize>, inner: Seq<usize>, mu: Seq<usize>, next: Seq<usize>, j: int)
    requires
        is_partition(outer),
        outer.len() <= usize::MAX,
        mu.len() <= usize::MAX,
        1 <= next.len() <= skew_cells(outer, inner).len(),
        ({
            let cells = skew_cells(outer, inner);
            let pos = next.len() - 1;
            let cell = cells[pos];
            ||| (1 <= next[pos] <= mu.len() && count_of(next, next[pos] as int) > mu[next[pos] - 1])
            ||| (0 <= j < pos && cell.col >= 2 && cells[j] == left_of(cell) && in_skew(outer, inner, left_of(cell)) && next[j] > next[pos])
            ||| (0 <= j < pos && cell.row >= 2 && cells[j] == above(cell) && in_skew(outer, inner, above(cell)) && next[j] >= next[pos])
        }),
    ensures
        words_from(next, skew_cells(outer, inner).len(), mu.len(), lr_word(outer, inner, mu)).len() == 0,
{
    let cells = skew_cells(outer, inner);
    let n = cells.len();
    let m = mu.len();
    let ok = lr_word(outer, inner, mu);
    let pos = next.len() - 1;
    lemma_skew_facts(outer, inner);
    lemma_words_from(next, n, m, ok);
    assert forall|w: Seq<usize>| !completes(w, next, n, m, ok) by {
        if completes(w, next, n, m, ok) {
            let f = pairs_map(cells, w);
            lemma_pairs_map(cells, w);
            let cell = cells[pos];
            assert(w[pos] == w.subrange(0, next.len() as int)[pos]);
            if 1 <= next[pos] <= m && count_of(next, next[pos] as int) > mu[next[pos] - 1] {
                lemma_count_prefix_le(w, next.len() as int, next[pos] as int);
                assert(count_of(w, next[pos] as int) == mu[next[pos] - 1]);
            } else {
                assert(w[j] == w.subrange(0, next.len() as int)[j]);
                assert(in_skew(outer, inner, cell));
                if cell.col >= 2 && cells[j] == left_of(cell) && in_skew(outer, inner, left_of(cell)) && next[j] > next[pos] {
                    assert(!rows_weak(outer, inner, f));
                } else {
                    assert(!cols_strict(outer, inner, f));
                }
            }
        }
    }
    let ws = words_from(next, n, m, ok);
    if ws.len() > 0 {
        assert(ws.contains(ws[0]));
    }
}

/// Putting a letter that fits its neighbours into the next cell keeps the filling valid
/// so far.
#[verifier::rlimit(40)]
proof fn lemma_lr_extend(outer: Seq<usize>, inner: Seq<usize>, m: int, vals: Seq<usize>, v: usize)
    requires
        is_partition(outer),
        outer.len() <= usize::MAX,
        vals.len() < skew_cells(outer, inner).len(),
        1 <= v <= m,
        partial_lr(outer, inner, m, pairs_map(skew_cells(outer, inner), vals)),
        ({
            let cells = skew_cells(outer, inner);
            let cell = cells[vals.len() as int];
            let f = pairs_map(cells, vals);
            &&& cell.col >= 2 && in_skew(outer, inner, left_of(cell)) ==> f[left_of(cell)] <= v
            &&& cell.row >= 2 && in_skew(outer, inner, above(cell)) ==> f[above(cell)] < v
        }),
    ensures
        partial_lr(outer, inner, m, pairs_map(skew_cells(outer, inner), vals.push(v))),
        pairs_map(skew_cells(outer, inner), vals.push(v)) == pairs_map(skew_cells(outer, inner), vals).insert(
            skew_cells(outer, inner)[vals.len() as int],
            v,
        ),
        !pairs_map(skew_cells(outer, inner), vals).dom().contains(skew_cells(outer, inner)[vals.len() as int]),
{
    let cells = skew_cells(outer, inner);
    let pos = vals.len() as int;
    let cell = cells[pos];
    let next = vals.push(v);
    lemma_skew_facts(outer, inner);
    lemma_pairs_map(cells, vals);
    lemma_pairs_map(cells, next);
    assert(next.drop_last() =~= vals);
    let f0 = pairs_map(cells, vals);
    let f = pairs_map(cells, next);
    assert(in_skew(outer, inner, cell));
    assert(!f0.dom().contains(cell)) by {
        if f0.dom().contains(cell) {
            let j = choose|j: int| 0 <= j < vals.len() && cells[j] == cell;
        }
    }
    if cell.col >= 2 && in_skew(outer, inner, left_of(cell)) {
        let j = choose|j: int| 0 <= j < cells.len() && #[trigger] cells[j] == left_of(cell);
        assert(before(left_of(cell), cell));
        assert(f0.dom().contains(left_of(cell)));
    }
    if cell.row >= 2 && in_skew(outer, inner, above(cell)) {
        let j = choose|j: int| 0 <= j < cells.len() && #[trigger] cells[j] == above(cell);
        assert(before(above(cell), cell));
        assert(f0.dom().contains(above(cell)));
    }
    assert(f == f0.insert(cell, v));
    assert forall|c: Cell| #[trigger] f.dom().contains(c) implies 1 <= f[c] <= m by {
        if c != cell {
            assert(f0.dom().contains(c));
        }
    }
    assert forall|c: Cell|
        #[trigger] f.dom().contains(c) && c.col >= 2 && in_skew(outer, inner, left_of(c)) implies f.dom().contains(left_of(c))
        && f[left_of(c)] <= f[c] by {
        if c != cell {
            assert(f0.dom().contains(c));
            assert(f0.dom().contains(left_of(c)));
        }
    }
    assert forall|c: Cell|
        #[trigger] f.dom().contains(c) && c.row >= 2 && in_skew(outer, inner, above(c)) implies f.dom().contains(above(c))
        && f[above(c)] < f[c] by {
        if c != cell {
            assert(f0.dom().contains(c));
            assert(f0.dom().contains(above(c)));
        }
    }
}

/// A complete filling that is valid so far and uses each letter at most as often as `mu`
/// allows is a Littlewood-Richardson tableau exactly when its reading word is a lattice word.
proof fn lemma_lr_leaf(outer: Seq<usize>, inner: Seq<usize>, mu: Seq<usize>, vals: Seq<usize>)
    requires
        is_partition(outer),
        outer.len() <= usize::MAX,
        vals.len() == skew_cells(outer, inner).len(),
        vals.len() == seq_sum(mu),
        partial_lr(outer, inner, mu.len() as int, pairs_map(skew_cells(outer, inner), vals)),
        forall|v: int| 1 <= v <= mu.len() ==> #[trigger] count_of(vals, v) <= mu[v - 1],
    ensures
        lr_word(outer, inner, mu)(vals) == is_lattice(
            reading_word_of(skew_cells(outer, inner), outer.len() as int, pairs_map(skew_cells(outer, inner), vals)),
        ),
{
    let cells = skew_cells(outer, inner);
    let f = pairs_map(cells, vals);
    lemma_skew_facts(outer, inner);
    lemma_pairs_map(cells, vals);
    assert forall|i: int| 0 <= i < vals.len() implies 1 <= #[trigger] vals[i] <= mu.len() by {
        assert(f.dom().contains(cells[i]));
    }
    lemma_content_exact(vals, mu);
    assert forall|c: Cell| in_skew(outer, inner, c) implies #[trigger] f.dom().contains(c) by {
        let k = choose|k: int| 0 <= k < cells.len() && #[trigger] cells[k] == c;
    }
    assert(rows_weak(outer, inner, f)) by {
        assert forall|c: Cell| in_skew(outer, inner, c) && c.col >= 2 && in_skew(outer, inner, left_of(c))
            implies f[left_of(c)] <= #[trigger] f[c] by {
            assert(f.dom().contains(c));
        }
    }
    assert(cols_strict(outer, inner, f)) by {
        assert forall|c: Cell| in_skew(outer, inner, c) && c.row >= 2 && in_skew(outer, inner, above(c))
            implies f[above(c)] < #[trigger] f[c] by {
            assert(f.dom().contains(c));
        }
    }
}

/// Counts the Littlewood-Richardson fillings that extend the values already in the cells
/// before `pos`: each cell tries, in increasing order, every letter with copies left that
/// fits its neighbours.
#[verifier::rlimit(100)]
#[verifier::spinoff_prover]
fn backtrack(
    shape: &SkewShape,
    cells: &[Cell],
    pos: usize,
    mu: &[usize],
    remaining: &mut Vec<usize>,
    current: &mut Filling<usize>,
    count: &mut usize,
    Ghost(vals): Ghost<Seq<usize>>,
)
    requires
        is_partition(shape.outer_view()),
        shape.outer_view().len() <= usize::MAX,
        cells@ == skew_cells(shape.outer_view(), shape.inner_view()),
        cells@ == shape.cells_view(),
        cells@.len() == seq_sum(mu@),
        pos == vals.len(),
        pos <= cells@.len(),
        old(current)@ == pairs_map(cells@, vals),
        partial_lr(shape.outer_view(), shape.inner_view(), mu@.len() as int, old(current)@),
        old(remaining)@.len() == mu@.len(),
        forall|i: int| 0 <= i < mu@.len() ==> #[trigger] old(remaining)@[i] + count_of(vals, i + 1) == mu@[i],
        *old(count) + words_from(vals, cells@.len() as nat, mu@.len() as nat, lr_word(shape.outer_view(), shape.inner_view(), mu@)).len() <= usize::MAX,
    ensures
        final(current)@ == old(current)@,
        final(remaining)@ == old(remaining)@,
        *final(count) == *old(count) + words_from(vals, cells@.len() as nat, mu@.len() as nat, lr_word(shape.outer_view(), shape.inner_view(), mu@)).len(),
    decreases cells@.len() - pos,
{
    let ghost o = shape.outer_view();
    let ghost inn = shape.inner_view();
    let ghost n = cells@.len();
    let ghost m = mu@.len();
    let ghost ok = lr_word(o, inn, mu@);
    if pos == cells.len() {
        let word = reading_word(shape, current);
        proof {
            assert forall|v: int| 1 <= v <= m implies #[trigger] count_of(vals, v) <= mu@[v - 1] by {
                assert(remaining@[v - 1] + count_of(vals, v) == mu@[v - 1]);
            }
            lemma_lr_leaf(o, inn, mu@, vals);
            assert(words_from(vals, n as nat, m as nat, ok) == (if ok(vals) { seq![vals] } else { Seq::<Seq<usize>>::empty() }));
        }
        if is_lattice_word(&word) {
            *count = *count + 1;
        }
        return;
    }
    let cell = cells[pos];
    proof {
        lemma_skew_facts(o, inn);
        assert(in_skew(o, inn, cell));
        assert(words_from(vals, n as nat, m as nat, ok) == words_with_next(vals, n as nat, m as nat, ok, 1));
    }
    let ghost start = *count;
    let mut idx: usize = 0;
    while idx < mu.len()
        invariant
            idx <= mu@.len(),
            n == cells@.len(),
            m == mu@.len(),
            n == seq_sum(mu@),
            pos < n,
            pos < cells.len(),
            pos == vals.len(),
            o == shape.outer_view(),
            inn == shape.inner_view(),
            is_partition(o),
            o.len() <= usize::MAX,
            cells@ == skew_cells(o, inn),
            cells@ == shape.cells_view(),
            cell == cells@[pos as int],
            cell.row >= 1,
            ok == lr_word(o, inn, mu@),
            current@ == pairs_map(cells@, vals),
            partial_lr(o, inn, m as int, current@),
            remaining@.len() == m,
            remaining@ == old(remaining)@,
            forall|i: int| 0 <= i < m ==> #[trigger] remaining@[i] + count_of(vals, i + 1) == mu@[i],
            start + words_from(vals, n as nat, m as nat, ok).len() <= usize::MAX,
            *count + words_with_next(vals, n as nat, m as nat, ok, (idx + 1) as nat).len() == start
                + words_from(vals, n as nat, m as nat, ok).len(),
        decreases mu.len() - idx,
    {
        let v = idx + 1;
        let ghost next = vals.push(v);
        proof {
            assert(words_with_next(vals, n as nat, m as nat, ok, v as nat) == words_from(next, n as nat, m as nat, ok)
                + words_with_next(vals, n as nat, m as nat, ok, (v + 1) as nat));
        }
        let mut skip = remaining[idx] == 0;
        if skip {
            proof {
                lemma_count_push(vals, v, v as int);
                lemma_lr_prunes(o, inn, mu@, next, 0);
            }
        }
        if !skip && cell.col > 1 {
            let left = Cell::new(cell.row, cell.col - 1);
            if shape.contains(&left) {
                match current.get(&left) {
                    Some(lv) => {
                        if *lv > v {
                            skip = true;
                            proof {
                                lemma_skew_facts(o, inn);
                                lemma_pairs_map(cells@, vals);
                                let j = choose|j: int| 0 <= j < vals.len() && cells@[j] == left;
                                lemma_lr_prunes(o, inn, mu@, next, j);
                            }
                        }
                    },
                    None => {},
                }
            }
        }
        if !skip && cell.row > 1 {
            let up = Cell::new(cell.row - 1, cell.col);
            if shape.contains(&up) {
                match current.get(&up) {
                    Some(uv) => {
                        if *uv >= v {
                            skip = true;
                            proof {
                                lemma_skew_facts(o, inn);
                                lemma_pairs_map(cells@, vals);
                                let j = choose|j: int| 0 <= j < vals.len() && cells@[j] == up;
                                lemma_lr_prunes(o, inn, mu@, next, j);
                            }
                        }
                    },
                    None => {},
                }
            }
        }
        if !skip {
            proof {
                lemma_skew_facts(o, inn);
                lemma_pairs_map(cells@, vals);
                assert(in_skew(o, inn, cell));
                if cell.col >= 2 && in_skew(o, inn, left_of(cell)) {
                    let j = choose|j: int| 0 <= j < cells@.len() && #[trigger] cells@[j] == left_of(cell);
                    assert(before(left_of(cell), cell));
                    assert(current@.dom().contains(left_of(cell)));
                }
                if cell.row >= 2 && in_skew(o, inn, above(cell)) {
                    let j = choose|j: int| 0 <= j < cells@.len() && #[trigger] cells@[j] == above(cell);
                    assert(before(above(cell), cell));
                    assert(current@.dom().contains(above(cell)));
                }
                lemma_lr_extend(o, inn, m as int, vals, v);
            }
            remaining.set(idx, remaining[idx] - 1);
            current.insert(cell, v);
            proof {
                assert forall|i: int| 0 <= i < m implies #[trigger] remaining@[i] + count_of(next, i + 1) == mu@[i] by {
                    lemma_count_push(vals, v, i + 1);
                }
                assert(words_with_next(vals, n as nat, m as nat, ok, v as nat).len() == words_from(next, n as nat, m as nat, ok).len()
                    + words_with_next(vals, n as nat, m as nat, ok, (v + 1) as nat).len());
            }
            backtrack(shape, cells, pos + 1, mu, remaining, current, count, Ghost(next));
            current.remove(&cell);
            remaining.set(idx, remaining[idx] + 1);
            proof {
                assert(current@ =~= pairs_map(cells@, vals));
                assert(remaining@ =~= old(remaining)@);
            }
        }
        idx = idx + 1;
    }
    proof {
        assert(words_with_next(vals, n as nat, m as nat, ok, (idx + 1) as nat) =~= Seq::<Seq<usize>>::empty());
    }
}


/// The Littlewood-Richardson coefficient `c^nu_{lambda, mu}`: how many times `nu` occurs in
/// the decomposition of `lambda ⊗ mu`. It is 0 unless `|nu| = |lambda| + |mu|` and `nu`
/// contains `lambda`; otherwise it counts the fillings of `nu / lambda` with content `mu`
/// that are semistandard and whose reading word is a lattice word.
pub fn lr_coefficient(lambda: &Partition, mu: &Partition, nu: &Partition) -> (r: usize)
    requires
        seq_sum(nu@) <= usize::MAX,
        seq_sum(lambda@) + seq_sum(mu@) <= usize::MAX,
        lr_value(lambda@, mu@, nu@) <= usize::MAX,
    ensures
        r == lr_value(lambda@, mu@, nu@),
{
    lr_coefficient_impl(lambda, mu, nu, false)
}

/// When `nu` does not contain `lambda`, tries the conjugates once before giving 0; the
/// conjugates never contain each other then either, so the answer is the same.
fn lr_coefficient_impl(lambda: &Partition, mu: &Partition, nu: &Partition, is_conj: bool) -> (r: usize)
    requires
        seq_sum(nu@) <= usize::MAX,
        seq_sum(lambda@) + seq_sum(mu@) <= usize::MAX,
        lr_value(lambda@, mu@, nu@) <= usize::MAX,
    ensures
        r == lr_value(lambda@, mu@, nu@),
    decreases (if is_conj { 0int } else { 1int }),
{
    proof {
        lemma_seq_sum_nonneg(lambda@);
        lemma_seq_sum_nonneg(mu@);
    }
    if nu.size() != lambda.size() + mu.size() {
        return 0;
    }
    let outer = YoungDiagram::from_partition(nu.clone());
    let inner = YoungDiagram::from_partition(lambda.clone());
    outer.facts();
    inner.facts();
    if outer.partition().contains(inner.partition()) {
        let shape = match SkewShape::new(outer, inner) {
            Ok(s) => s,
            Err(_) => {
                return 0;
            },
        };
        let ghost o = shape.outer_view();
        let ghost inn = shape.inner_view();
        let cells = shape.cells();
        let parts = mu.parts();
        let mut remaining: Vec<usize> = Vec::new();
        let mut i: usize = 0;
        while i < parts.len()
            invariant
                i <= parts@.len(),
                remaining@ =~= parts@.take(i as int),
            decreases parts.len() - i,
        {
            remaining.push(parts[i]);
            i = i + 1;
        }
        proof {
            assert(parts@.take(i as int) =~= parts@);
            lemma_skew_size(o, inn);
            assert(pairs_map(cells@, Seq::<usize>::empty()) =~= Map::<Cell, usize>::empty());
            assert forall|k: int| 0 <= k < mu@.len() implies #[trigger] remaining@[k] + count_of(
                Seq::<usize>::empty(),
                k + 1,
            ) == mu@[k] by {}
        }
        let mut current: Filling<usize> = Filling::new();
        let mut count: usize = 0;
        backtrack(&shape, cells, 0, parts, &mut remaining, &mut current, &mut count, Ghost(Seq::empty()));
        count
    } else if !is_conj {
        proof {
            lemma_conjugate_includes(nu@, lambda@);
        }
        let nu_conj = outer.conjugate().partition().clone();
        let lambda_conj = inner.conjugate().partition().clone();
        let mu_diag = YoungDiagram::from_partition(mu.clone());
        let mu_conj = mu_diag.conjugate().partition().clone();
        if nu_conj.contains(&lambda_conj) {
            lr_coefficient_impl(&lambda_conj, &mu_conj, &nu_conj, true)
        } else {
            0
        }
    } else {
        0
    }
}

/// Every coefficient `c^nu_{lambda, mu}` for the listed `nu`, computed on rayon's thread
/// pool (`par_iter().map(..).collect()`). Claimed of rayon: collecting an indexed parallel
/// iterator into a `Vec` keeps the order of the items, so entry `i` is the value that
/// `lr_coefficient` returns for `nus[i]`.
#[verifier::external_body]
fn lr_coefficients_in_parallel(lambda: &Partition, mu: &Partition, nus: &Vec<Partition>) -> (r: Vec<usize>)
    requires
        seq_sum(lambda@) + seq_sum(mu@) <= usize::MAX,
        forall|i: int| 0 <= i < nus.len() ==> seq_sum(#[trigger] nus@[i]@) <= usize::MAX
            && lr_value(lambda@, mu@, nus@[i]@) <= usize::MAX,
    ensures
        r.len() == nus.len(),
        forall|i: int| 0 <= i < nus.len() ==> r@[i] == lr_value(lambda@, mu@, #[trigger] nus@[i]@),
{
    nus.par_iter().map(|nu| lr_coefficient(lambda, mu, nu)).collect()
}

/// The pairs of a decomposition, by partition.
pub open spec fn decomposition_views(v: Seq<(Partition, usize)>) -> Seq<Seq<usize>> {
    v.map_values(|e: (Partition, usize)| e.0@)
}

/// The decomposition of `lambda ⊗ mu`: every partition `nu` of `|lambda| + |mu|` with a
/// positive coefficient, with that coefficient, from the largest `nu` down in
/// lexicographic order (nothing when both are empty).
pub fn tensor_product_decompose(lambda: &Partition, mu: &Partition) -> (r: Vec<(Partition, usize)>)
    requires
        seq_sum(lambda@) + seq_sum(mu@) <= usize::MAX,
        forall|nu: Seq<usize>|
            is_partition(nu) && seq_sum(nu) == seq_sum(lambda@) + seq_sum(mu@) ==> #[trigger] lr_value(
                lambda@,
                mu@,
                nu,
            ) <= usize::MAX,
    ensures
        forall|i: int|
            0 <= i < r.len() ==> {
                let (nu, c) = #[trigger] r@[i];
                &&& is_partition(nu@)
                &&& seq_sum(nu@) == seq_sum(lambda@) + seq_sum(mu@)
                &&& c == lr_value(lambda@, mu@, nu@)
                &&& c > 0
            },
        forall|nu: Seq<usize>|
            is_partition(nu) && seq_sum(nu) == seq_sum(lambda@) + seq_sum(mu@) && seq_sum(nu) > 0
                && lr_value(lambda@, mu@, nu) > 0 ==> #[trigger] decomposition_views(r@).contains(nu),
        strictly_decreasing(decomposition_views(r@)),
        seq_sum(lambda@) + seq_sum(mu@) == 0 ==> r.len() == 0,
{
    proof {
        lemma_seq_sum_nonneg(lambda@);
        lemma_seq_sum_nonneg(mu@);
    }
    let total = lambda.size() + mu.size();
    let all_nu = Partition::generate_all(total);
    proof {
        assert forall|i: int| 0 <= i < all_nu.len() implies seq_sum(#[trigger] all_nu@[i]@) <= usize::MAX
            && lr_value(lambda@, mu@, all_nu@[i]@) <= usize::MAX by {
            assert(is_partition(all_nu@[i]@));
        }
    }
    let coefficients = lr_coefficients_in_parallel(lambda, mu, &all_nu);
    let result = keep_positive(
        &all_nu,
        &coefficients,
        Ghost(|nu: Seq<usize>| lr_value(lambda@, mu@, nu)),
        Ghost(total as int),
    );
    let ghost all = views(all_nu@);
    proof {
        if total == 0 {
            assert(all.len() == 0);
        }
        assert forall|nu: Seq<usize>|
            is_partition(nu) && seq_sum(nu) == seq_sum(lambda@) + seq_sum(mu@) && seq_sum(nu) > 0
                && lr_value(lambda@, mu@, nu) > 0 implies #[trigger] decomposition_views(result@).contains(nu) by {
            assert(views(all_nu@).contains(nu));
            let j = choose|j: int| 0 <= j < all.len() && all[j] == nu;
        }
    }
    result
}

/// A filling whose values are all 1 reads as a word whose largest letter is at most 1.
proof fn lemma_filled_values_ones(f: Map<Cell, usize>, cs: Seq<Cell>)
    requires
        forall|c: Cell| #[trigger] f.dom().contains(c) ==> f[c] == 1,
    ensures
        crate::skew::seq_max(crate::skew::filled_values(f, cs)) <= 1,
    decreases cs.len(),
{
    if cs.len() > 0 {
        let t = crate::skew::filled_values(f, cs.drop_last());
        lemma_filled_values_ones(f, cs.drop_last());
        if f.dom().contains(cs.last()) {
            assert(t.push(f[cs.last()]).drop_last() =~= t);
        }
    }
}

/// A single box added to `lambda` has exactly one Littlewood-Richardson filling, the
/// letter 1.
pub proof fn lemma_lr_single_box(lam: Seq<usize>, nu: Seq<usize>)
    requires
        is_partition(lam),
        is_partition(nu),
        nu.len() <= usize::MAX,
        includes(nu, lam),
        seq_sum(nu) == seq_sum(lam) + 1,
    ensures
        lr_value(lam, seq![1usize], nu) == 1,
{
    let mu = seq![1usize];
    let e = Seq::<usize>::empty();
    let one = seq![1usize];
    assert(mu.drop_last() =~= e);
    assert(seq_sum(e) == 0);
    assert(seq_sum(mu) == 1);
    lemma_skew_size(nu, lam);
    lemma_skew_facts(nu, lam);
    let cells = skew_cells(nu, lam);
    assert(cells.len() == 1);
    let ok = lr_word(nu, lam, mu);
    assert(one.drop_last() =~= e);
    assert(e.push(1usize) =~= one);
    let f = pairs_map(cells, one);
    assert(pairs_map(cells, e) == Map::<Cell, usize>::empty());
    assert(f =~= Map::<Cell, usize>::empty().insert(cells[0], 1usize));
    assert(has_content(one, mu)) by {
        assert(count_of(e, 1) == 0);
        assert(count_of(one, 1) == 1);
    }
    assert(rows_weak(nu, lam, f)) by {
        assert forall|c: Cell|
            in_skew(nu, lam, c) && c.col >= 2 && in_skew(nu, lam, left_of(c)) implies f[left_of(c)] <= #[trigger] f[c] by {
            let k1 = choose|k: int| 0 <= k < cells.len() && #[trigger] cells[k] == c;
            let k2 = choose|k: int| 0 <= k < cells.len() && #[trigger] cells[k] == left_of(c);
            assert(k1 == 0 && k2 == 0);
        }
    }
    assert(cols_strict(nu, lam, f)) by {
        assert forall|c: Cell|
            in_skew(nu, lam, c) && c.row >= 2 && in_skew(nu, lam, above(c)) implies f[above(c)] < #[trigger] f[c] by {
            let k1 = choose|k: int| 0 <= k < cells.len() && #[trigger] cells[k] == c;
            let k2 = choose|k: int| 0 <= k < cells.len() && #[trigger] cells[k] == above(c);
            assert(k1 == 0 && k2 == 0);
        }
    }
    lemma_filled_values_ones(f, crate::skew::reading_order(cells, nu.len() as int));
    assert(ok(one));
    assert(words_from(one, 1, 1, ok) == seq![one]);
    assert(words_with_next(e, 1, 1, ok, 2).len() == 0);
    assert(words_from(e, 1, 1, ok) =~= seq![one]);
}

/// The parts of `outer` are at least those of `inner`, summed over the first `k` rows;
/// equal sums mean equal parts.
proof fn lemma_parts_before_gap(outer: Seq<usize>, inner: Seq<usize>, k: int)
    requires
        0 <= k,
        includes(outer, inner),
    ensures
        parts_before(outer, k) >= parts_before(inner, k),
        parts_before(outer, k) == parts_before(inner, k) ==> forall|r: int|
            0 <= r < k ==> #[trigger] part_at(outer, r) == part_at(inner, r),
    decreases k,
{
    if k > 0 {
        lemma_parts_before_gap(outer, inner, k - 1);
        assert(part_at(inner, k - 1) <= part_at(outer, k - 1));
    }
}

/// A partition that contains another of the same size is that partition.
pub proof fn lemma_includes_same_size(outer: Seq<usize>, inner: Seq<usize>)
    requires
        is_partition(outer),
        is_partition(inner),
        includes(outer, inner),
        seq_sum(outer) == seq_sum(inner),
    ensures
        outer == inner,
{
    let big = if outer.len() > inner.len() { outer.len() as int } else { inner.len() as int };
    lemma_parts_before(outer, big);
    lemma_parts_before(inner, big);
    lemma_parts_before_gap(outer, inner, big);
    if outer.len() > inner.len() {
        assert(part_at(outer, inner.len() as int) == part_at(inner, inner.len() as int));
    }
    if inner.len() > outer.len() {
        assert(part_at(outer, outer.len() as int) == part_at(inner, outer.len() as int));
    }
    assert forall|r: int| 0 <= r < outer.len() implies outer[r] == inner[r] by {
        assert(part_at(outer, r) == part_at(inner, r));
    }
    assert(outer =~= inner);
}

/// Adding nothing to `lambda` gives `lambda` once.
pub proof fn lemma_lr_nothing_added(lam: Seq<usize>, nu: Seq<usize>)
    requires
        is_partition(lam),
        is_partition(nu),
        lam.len() <= usize::MAX,
        nu.len() <= usize::MAX,
    ensures
        lr_value(lam, Seq::<usize>::empty(), nu) == (if nu == lam { 1nat } else { 0nat }),
{
    let e = Seq::<usize>::empty();
    assert(seq_sum(e) == 0);
    if nu == lam {
        assert(includes(lam, lam));
        lemma_skew_size(lam, lam);
        let cells = skew_cells(lam, lam);
        let ok = lr_word(lam, lam, e);
        let f = pairs_map(cells, e);
        assert(f == Map::<Cell, usize>::empty());
        lemma_filled_values_ones(f, crate::skew::reading_order(cells, lam.len() as int));
        assert(ok(e));
        assert(words_from(e, 0, 0, ok) == seq![e]);
    } else if includes(nu, lam) && seq_sum(nu) == seq_sum(lam) {
        lemma_includes_same_size(nu, lam);
    }
}

// ----- the constructive rule: horizontal strips -----

/// The shape with its trailing empty rows removed.
pub open spec fn trim_zeros(s: Seq<usize>) -> Seq<usize>
    decreases s.len(),
{
    if s.len() > 0 && s.last() == 0 {
        trim_zeros(s.drop_last())
    } else {
        s
    }
}

/// Sum of the first `r` entries.
pub open spec fn prefix_total(s: Seq<usize>, r: int) -> int {
    seq_sum(s.take(r))
}

/// Sum of the parts of `mu` from index `k` on.
pub open spec fn tail_total(mu: Seq<usize>, k: int) -> int
    decreases mu.len() - k,
{
    if 0 <= k < mu.len() {
        mu[k] + tail_total(mu, k + 1)
    } else {
        0
    }
}

/// The number of ways to finish a Littlewood-Richardson strip sequence from a point of
/// the search, counting only those that end on `target` (trailing empty rows dropped)
/// when it is given. Letter `step + 1` is being placed: `left` of its `mu[step]` boxes
/// remain, rows before `row` have received `placed[i]` of them, and row `row` receives at
/// least `from`. Row `row` may grow at most to the length `base[row - 1]` that the row
/// above had before this letter, so that the boxes of one letter form a horizontal strip;
/// and the boxes of this letter in rows `0..=row` may not outnumber `room[row]`, the boxes
/// of the previous letter in rows `0..row` (the lattice condition of the rule).
pub open spec fn strip_completions(
    target: Option<Seq<usize>>,
    mu: Seq<usize>,
    step: int,
    row: int,
    left: int,
    from: int,
    shape: Seq<usize>,
    base: Seq<usize>,
    placed: Seq<usize>,
    room: Seq<usize>,
) -> nat
    decreases mu.len() - step, shape.len() - row, left + 1 - from,
{
    if step < 0 || step >= mu.len() || row < 0 || left < 0 || from < 0 {
        0
    } else if left == 0 {
        if step + 1 == mu.len() {
            if matches_target(target, trim_zeros(shape)) {
                1
            } else {
                0
            }
        } else {
            strip_completions(
                target,
                mu,
                step + 1,
                0,
                mu[step + 1] as int,
                0,
                shape,
                shape,
                Seq::new(shape.len(), |i: int| 0usize),
                Seq::new(shape.len(), |i: int| prefix_total(placed, i) as usize),
            )
        }
    } else if row >= shape.len() {
        0
    } else {
        let gap = if row == 0 {
            left
        } else {
            base[row - 1] - base[row]
        };
        if from > left || from > gap || mu[step] - left + from > room[row] {
            0
        } else {
            strip_completions(
                target,
                mu,
                step,
                row + 1,
                left - from,
                0,
                shape.update(row, (shape[row] + from) as usize),
                base,
                placed.update(row, from as usize),
                room,
            ) + strip_completions(target, mu, step, row, left, from + 1, shape, base, placed, room)
        }
    }
}

/// `key` is the shape asked for, or no shape is asked for.
pub open spec fn matches_target(target: Option<Seq<usize>>, key: Seq<usize>) -> bool {
    match target {
        None => true,
        Some(t) => t == key,
    }
}

/// The shape `lambda` as the search starts it: padded with empty rows to
/// `lambda.len() + mu.len()` rows, room enough for every shape the strips can reach.
pub open spec fn padded(lambda: Seq<usize>, n: nat) -> Seq<usize> {
    Seq::new(n, |i: int| if i < lambda.len() { lambda[i] } else { 0usize })
}

/// The number of Littlewood-Richardson strip sequences that carry `lambda` to `target`
/// (to any shape when no target is given): `mu[0]` boxes of letter 1 are added as a
/// horizontal strip, then `mu[1]` boxes of letter 2, and so on, such that at no row the
/// boxes of a letter in that row and above outnumber the boxes of the letter before it
/// in the rows above. With `mu` empty, `lambda` itself is the one result.
pub open spec fn pieri_count(lambda: Seq<usize>, mu: Seq<usize>, target: Option<Seq<usize>>) -> nat {
    if mu.len() == 0 {
        if matches_target(target, lambda) {
            1
        } else {
            0
        }
    } else {
        let n = lambda.len() + mu.len();
        strip_completions(
            target,
            mu,
            0,
            0,
            mu[0] as int,
            0,
            padded(lambda, n),
            padded(lambda, n),
            Seq::new(n, |i: int| 0usize),
            Seq::new(n, |i: int| usize::MAX),
        )
    }
}

/// What `results` holds for `target`: the sum of the counts of its entries with that
/// shape, or of all its entries when no target is given.
pub open spec fn tally(v: Seq<(Vec<usize>, usize)>, target: Option<Seq<usize>>) -> int
    decreases v.len(),
{
    if v.len() == 0 {
        0
    } else {
        tally(v.drop_last(), target) + if matches_target(target, v.last().0@) {
            v.last().1 as int
        } else {
            0
        }
    }
}

proof fn lemma_tally_bounds(v: Seq<(Vec<usize>, usize)>, target: Option<Seq<usize>>)
    ensures
        0 <= tally(v, target) <= tally(v, None),
        forall|i: int| 0 <= i < v.len() ==> #[trigger] v[i].1 <= tally(v, None),
    decreases v.len(),
{
    if v.len() > 0 {
        lemma_tally_bounds(v.drop_last(), target);
        assert forall|i: int| 0 <= i < v.len() implies #[trigger] v[i].1 <= tally(v, None) by {
            if i < v.len() - 1 {
                assert(v.drop_last()[i] == v[i]);
            }
        }
    }
}

proof fn lemma_tally_update(
    v: Seq<(Vec<usize>, usize)>,
    i: int,
    e: (Vec<usize>, usize),
    target: Option<Seq<usize>>,
)
    requires
        0 <= i < v.len(),
        e.0@ == v[i].0@,
    ensures
        tally(v.update(i, e), target) == tally(v, target) + if matches_target(target, e.0@) {
            e.1 - v[i].1
        } else {
            0
        },
    decreases v.len(),
{
    let w = v.update(i, e);
    if i == v.len() - 1 {
        assert(w.drop_last() =~= v.drop_last());
    } else {
        assert(w.drop_last() =~= v.drop_last().update(i, e));
        lemma_tally_update(v.drop_last(), i, e, target);
    }
}

proof fn lemma_tally_push(v: Seq<(Vec<usize>, usize)>, e: (Vec<usize>, usize), target: Option<Seq<usize>>)
    ensures
        tally(v.push(e), target) == tally(v, target) + if matches_target(target, e.0@) {
            e.1 as int
        } else {
            0
        },
{
    assert(v.push(e).drop_last() =~= v);
}

pub proof fn lemma_prefix_step(s: Seq<usize>, r: int)
    requires
        0 <= r < s.len(),
    ensures
        prefix_total(s, r + 1) == prefix_total(s, r) + s[r],
{
    assert(s.take(r + 1).drop_last() =~= s.take(r));
}

pub proof fn lemma_prefix_mono(s: Seq<usize>, j: int, k: int)
    requires
        0 <= j <= k <= s.len(),
    ensures
        prefix_total(s, j) <= prefix_total(s, k),
    decreases k - j,
{
    if j < k {
        lemma_prefix_step(s, k - 1);
        lemma_prefix_mono(s, j, k - 1);
    }
}

proof fn lemma_prefix_flat(s: Seq<usize>, row: int, k: int)
    requires
        0 <= row <= k <= s.len(),
        forall|i: int| row <= i < s.len() ==> s[i] == 0,
    ensures
        prefix_total(s, k) == prefix_total(s, row),
    decreases k - row,
{
    if row < k {
        lemma_prefix_step(s, k - 1);
        lemma_prefix_flat(s, row, k - 1);
    }
}

/// A copy of `s`.
fn copy_row(s: &Vec<usize>) -> (r: Vec<usize>)
    ensures
        r@ == s@,
{
    let mut r: Vec<usize> = Vec::new();
    let mut i: usize = 0;
    while i < s.len()
        invariant
            i <= s@.len(),
            r@ == s@.take(i as int),
        decreases s@.len() - i,
    {
        r.push(s[i]);
        i = i + 1;
        assert(r@ =~= s@.take(i as int));
    }
    assert(s@.take(s@.len() as int) =~= s@);
    r
}

/// `n` copies of `v`.
fn filled_row(n: usize, v: usize) -> (r: Vec<usize>)
    ensures
        r@ == Seq::new(n as nat, |i: int| v),
{
    let mut r: Vec<usize> = Vec::new();
    let mut i: usize = 0;
    while i < n
        invariant
            i <= n,
            r@ == Seq::new(i as nat, |j: int| v),
        decreases n - i,
    {
        r.push(v);
        i = i + 1;
        assert(r@ =~= Seq::new(i as nat, |j: int| v));
    }
    r
}

/// The two rows are equal.
fn same_row(a: &[usize], b: &[usize]) -> (r: bool)
    ensures
        r == (a@ == b@),
{
    if a.len() != b.len() {
        return false;
    }
    let mut i: usize = 0;
    while i < a.len()
        invariant
            i <= a@.len(),
            a@.len() == b@.len(),
            forall|j: int| 0 <= j < i ==> a@[j] == b@[j],
        decreases a@.len() - i,
    {
        if a[i] != b[i] {
            return false;
        }
        i = i + 1;
    }
    assert(a@ =~= b@);
    true
}

/// The shape with its trailing empty rows removed.
fn trimmed(s: &Vec<usize>) -> (r: Vec<usize>)
    ensures
        r@ == trim_zeros(s@),
{
    let mut r = copy_row(s);
    while r.len() > 0 && r[r.len() - 1] == 0
        invariant
            trim_zeros(r@) == trim_zeros(s@),
        decreases r@.len(),
    {
        r.pop();
    }
    r
}

/// No shape is recorded twice, and every recorded shape has a positive count.
pub open spec fn tally_ok(v: Seq<(Vec<usize>, usize)>) -> bool {
    &&& forall|i: int, j: int| 0 <= i < j < v.len() ==> #[trigger] v[i].0@ != #[trigger] v[j].0@
    &&& forall|i: int| 0 <= i < v.len() ==> #[trigger] v[i].1 >= 1
}

/// An entry's count is part of what `results` holds for its shape.
proof fn lemma_tally_entry(v: Seq<(Vec<usize>, usize)>, i: int)
    requires
        0 <= i < v.len(),
    ensures
        v[i].1 <= tally(v, Some(v[i].0@)),
    decreases v.len(),
{
    lemma_tally_bounds(v.drop_last(), Some(v[i].0@));
    if i < v.len() - 1 {
        lemma_tally_entry(v.drop_last(), i);
        assert(v.drop_last()[i] == v[i]);
    }
}

/// With no shape recorded twice, an entry's count is all that `results` holds for its shape.
proof fn lemma_tally_distinct(v: Seq<(Vec<usize>, usize)>, i: int)
    requires
        tally_ok(v),
        0 <= i < v.len(),
    ensures
        tally(v, Some(v[i].0@)) == v[i].1,
    decreases v.len(),
{
    let d = v.drop_last();
    assert(tally_ok(d)) by {
        assert forall|a: int, b: int| 0 <= a < b < d.len() implies #[trigger] d[a].0@ != #[trigger] d[b].0@ by {
            assert(d[a] == v[a] && d[b] == v[b]);
        }
        assert forall|a: int| 0 <= a < d.len() implies #[trigger] d[a].1 >= 1 by {
            assert(d[a] == v[a]);
        }
    }
    if i < v.len() - 1 {
        assert(d[i] == v[i]);
        lemma_tally_distinct(d, i);
        assert(v[i].0@ != v[v.len() - 1].0@);
    } else {
        lemma_tally_absent(d, v[i].0@);
    }
}

/// A shape that no entry has is held zero times.
proof fn lemma_tally_absent(v: Seq<(Vec<usize>, usize)>, t: Seq<usize>)
    requires
        forall|i: int| 0 <= i < v.len() ==> #[trigger] v[i].0@ != t,
    ensures
        tally(v, Some(t)) == 0,
    decreases v.len(),
{
    if v.len() > 0 {
        assert forall|i: int| 0 <= i < v.drop_last().len() implies #[trigger] v.drop_last()[i].0@ != t by {
            assert(v.drop_last()[i] == v[i]);
        }
        lemma_tally_absent(v.drop_last(), t);
    }
}

/// Counts one more sequence that ends on `key`.
fn record(results: &mut Vec<(Vec<usize>, usize)>, key: Vec<usize>)
    requires
        tally(old(results)@, Some(key@)) + 1 <= usize::MAX,
        tally_ok(old(results)@),
    ensures
        tally_ok(final(results)@),
        forall|t: Option<Seq<usize>>|
            #[trigger] tally(final(results)@, t) == tally(old(results)@, t) + if matches_target(
                t,
                key@,
            ) {
                1int
            } else {
                0
            },
{
    let mut i: usize = 0;
    while i < results.len()
        invariant
            i <= results@.len(),
            results@ == old(results)@,
            tally(old(results)@, Some(key@)) + 1 <= usize::MAX,
            tally_ok(old(results)@),
            forall|j: int| 0 <= j < i ==> #[trigger] results@[j].0@ != key@,
        decreases results@.len() - i,
    {
        if same_row(results[i].0.as_slice(), key.as_slice()) {
            let c = results[i].1;
            proof {
                lemma_tally_entry(results@, i as int);
            }
            let ghost before = results@;
            results.set(i, (key, c + 1));
            proof {
                assert forall|t: Option<Seq<usize>>|
                    #[trigger] tally(results@, t) == tally(before, t) + if matches_target(t, key@) {
                        1int
                    } else {
                        0
                    } by {
                    lemma_tally_update(before, i as int, (key, (c + 1) as usize), t);
                }
                assert forall|a: int, b: int| 0 <= a < b < results@.len() implies #[trigger] results@[a].0@
                    != #[trigger] results@[b].0@ by {
                    assert(before[a].0@ != before[b].0@);
                }
                assert forall|a: int| 0 <= a < results@.len() implies #[trigger] results@[a].1 >= 1 by {
                    assert(before[a].1 >= 1);
                }
            }
            return;
        }
        i = i + 1;
    }
    let ghost before = results@;
    results.push((key, 1));
    proof {
        assert forall|t: Option<Seq<usize>>|
            #[trigger] tally(results@, t) == tally(before, t) + if matches_target(t, key@) {
                1int
            } else {
                0
            } by {
            lemma_tally_push(before, (key, 1usize), t);
        }
        assert forall|a: int, b: int| 0 <= a < b < results@.len() implies #[trigger] results@[a].0@
            != #[trigger] results@[b].0@ by {
            if b < before.len() {
                assert(before[a].0@ != before[b].0@);
            } else {
                assert(before[a].0@ != key@);
            }
        }
        assert forall|a: int| 0 <= a < results@.len() implies #[trigger] results@[a].1 >= 1 by {
            if a < before.len() {
                assert(before[a].1 >= 1);
            }
        }
    }
}

/// The constructive Littlewood-Richardson search: places the `mu[step]` boxes of letter
/// `step + 1` row by row from `row` on (`boxes_left` of them remain), then the later
/// letters, and counts in `results` each shape that a complete strip sequence reaches,
/// once per sequence. `base` is the shape before this letter, `curr_c[i]` the boxes of
/// this letter in row `i`, and `room[i]` the boxes of the previous letter above row `i`.
#[verifier::rlimit(40)]
#[verifier::loop_isolation(false)]
fn distribute(
    row: usize,
    boxes_left: usize,
    step: usize,
    shape: &mut Vec<usize>,
    base: &Vec<usize>,
    curr_c: &mut Vec<usize>,
    room: &Vec<usize>,
    mu: &Vec<usize>,
    results: &mut Vec<(Vec<usize>, usize)>,
)
    requires
        step < mu@.len(),
        row <= base@.len(),
        old(shape)@.len() == base@.len(),
        old(curr_c)@.len() == base@.len(),
        room@.len() == base@.len(),
        boxes_left <= mu@[step as int],
        prefix_total(old(curr_c)@, row as int) == mu@[step as int] - boxes_left,
        forall|i: int|
            row <= i < base@.len() ==> old(shape)@[i] == base@[i] && old(curr_c)@[i] == 0,
        forall|i: int|
            0 <= i < base@.len() ==> old(shape)@[i] + boxes_left + tail_total(mu@, step + 1)
                <= usize::MAX,
        tally_ok(old(results)@),
        forall|t: Seq<usize>|
            #[trigger] tally(old(results)@, Some(t)) + strip_completions(
                Some(t),
                mu@,
                step as int,
                row as int,
                boxes_left as int,
                0,
                old(shape)@,
                base@,
                old(curr_c)@,
                room@,
            ) <= usize::MAX,
    ensures
        tally_ok(final(results)@),
        final(shape)@ == old(shape)@,
        final(curr_c)@ == old(curr_c)@,
        forall|t: Option<Seq<usize>>|
            #[trigger] tally(final(results)@, t) == tally(old(results)@, t) + strip_completions(
                t,
                mu@,
                step as int,
                row as int,
                boxes_left as int,
                0,
                old(shape)@,
                base@,
                old(curr_c)@,
                room@,
            ),
    decreases mu@.len() - step, base@.len() - row,
{
    let ghost s0 = shape@;
    let ghost c0 = curr_c@;
    let letters = mu.len();
    proof {
        lemma_tail_nonneg(mu@, step + 1);
    }
    if boxes_left == 0 {
        let next = step + 1;
        if next == letters {
            let key = trimmed(shape);
            record(results, key);
        } else {
            let n = curr_c.len();
            let mut next_room: Vec<usize> = Vec::new();
            let mut sum: usize = 0;
            let mut i: usize = 0;
            proof {
                assert forall|j: int| row <= j < n implies c0[j] == 0 by {
                    assert(s0[j] == base@[j]);
                }
            }
            while i < n
                invariant
                    n == curr_c@.len(),
                    i <= n,
                    curr_c@ == c0,
                    row <= n,
                    prefix_total(c0, row as int) == mu@[step as int],
                    forall|j: int| row <= j < n ==> c0[j] == 0,
                    sum == prefix_total(c0, i as int),
                    next_room@ == Seq::new(i as nat, |j: int| prefix_total(c0, j) as usize),
                decreases n - i,
            {
                next_room.push(sum);
                proof {
                    lemma_prefix_step(c0, i as int);
                    if i + 1 <= row {
                        lemma_prefix_mono(c0, i + 1, row as int);
                    } else {
                        lemma_prefix_flat(c0, row as int, i + 1);
                    }
                }
                sum = sum + curr_c[i];
                i = i + 1;
                assert(next_room@ =~= Seq::new(i as nat, |j: int| prefix_total(c0, j) as usize));
            }
            let mut next_c = filled_row(n, 0);
            let next_base = copy_row(shape);
            proof {
                assert(prefix_total(next_c@, 0) == 0) by {
                    assert(next_c@.take(0) =~= Seq::<usize>::empty());
                }
            }
            distribute(0, mu[next], next, shape, &next_base, &mut next_c, &next_room, mu, results);
        }
        return;
    }
    if row == shape.len() {
        return;
    }
    if row > 0 && base[row - 1] < base[row] {
        return;
    }
    let gap: usize = if row == 0 {
        boxes_left
    } else {
        base[row - 1] - base[row]
    };
    let cap: usize = if gap < boxes_left {
        gap
    } else {
        boxes_left
    };
    let placed_before: usize = mu[step] - boxes_left;
    let mut c: usize = 0;
    let mut more: bool = placed_before <= room[row];
    while more
        invariant
            shape@ == s0,
            curr_c@ == c0,
            c <= cap,
            cap <= boxes_left,
            cap as int <= gap,
            placed_before == mu@[step as int] - boxes_left,
            more ==> placed_before + c <= room@[row as int],
            tally_ok(results@),
            forall|t: Option<Seq<usize>>|
                #[trigger] tally(results@, t) + (if more {
                    strip_completions(t, mu@, step as int, row as int, boxes_left as int, c as int, s0, base@, c0, room@)
                } else {
                    0
                }) == tally(old(results)@, t) + strip_completions(
                    t,
                    mu@,
                    step as int,
                    row as int,
                    boxes_left as int,
                    0,
                    s0,
                    base@,
                    c0,
                    room@,
                ),
        decreases cap - c + if more {
            1int
        } else {
            0
        },
    {
        curr_c.set(row, c);
        shape.set(row, shape[row] + c);
        let ghost s1 = shape@;
        let ghost c1 = curr_c@;
        proof {
            assert(s1 == s0.update(row as int, (s0[row as int] + c) as usize));
            assert(c1 == c0.update(row as int, c));
            assert(c1.take(row as int) =~= c0.take(row as int));
            lemma_prefix_step(c1, row as int);
            assert forall|i: int| row + 1 <= i < base@.len() implies s1[i] == base@[i] && c1[i] == 0 by {
                assert(s0[i] == base@[i]);
            }
            assert forall|t: Seq<usize>|
                #[trigger] tally(results@, Some(t)) + strip_completions(
                    Some(t),
                    mu@,
                    step as int,
                    row + 1,
                    boxes_left - c,
                    0,
                    s1,
                    base@,
                    c1,
                    room@,
                ) <= usize::MAX by {
                assert(tally(results@, Some(t)) + strip_completions(Some(t), mu@, step as int, row as int, boxes_left as int, c as int, s0, base@, c0, room@)
                    == tally(old(results)@, Some(t)) + strip_completions(Some(t), mu@, step as int, row as int, boxes_left as int, 0, s0, base@, c0, room@));
            }
        }
        let ghost mid = results@;
        distribute(row + 1, boxes_left - c, step, shape, base, curr_c, room, mu, results);
        shape.set(row, shape[row] - c);
        curr_c.set(row, 0);
        proof {
            assert(s0[row as int] == base@[row as int]);
            assert(shape@ =~= s0);
            assert(curr_c@ =~= c0);
        }
        let ghost c_now = c;
        if c == cap || placed_before + c + 1 > room[row] {
            more = false;
        } else {
            c = c + 1;
        }
        proof {
            assert forall|t: Option<Seq<usize>>|
                #[trigger] tally(results@, t) + (if more {
                    strip_completions(t, mu@, step as int, row as int, boxes_left as int, c as int, s0, base@, c0, room@)
                } else {
                    0
                }) == tally(old(results)@, t) + strip_completions(t, mu@, step as int, row as int, boxes_left as int, 0, s0, base@, c0, room@) by {
                let here = strip_completions(t, mu@, step as int, row as int, boxes_left as int, c_now as int, s0, base@, c0, room@);
                let down = strip_completions(t, mu@, step as int, row as int + 1, boxes_left - c_now, 0, s1, base@, c1, room@);
                let after = strip_completions(t, mu@, step as int, row as int, boxes_left as int, c_now + 1, s0, base@, c0, room@);
                assert(here == down + after);
                assert(tally(results@, t) == tally(mid, t) + down);
                if !more {
                    assert(after == 0);
                }
            }
        }
    }
}

proof fn lemma_tail_nonneg(mu: Seq<usize>, k: int)
    ensures
        tail_total(mu, k) >= 0,
    decreases mu.len() - k,
{
    if 0 <= k < mu.len() {
        lemma_tail_nonneg(mu, k + 1);
    }
}

proof fn lemma_tail_total(mu: Seq<usize>, k: int)
    requires
        0 <= k <= mu.len(),
    ensures
        tail_total(mu, k) + prefix_total(mu, k) == seq_sum(mu),
    decreases mu.len() - k,
{
    if k < mu.len() {
        lemma_tail_total(mu, k + 1);
        lemma_prefix_step(mu, k);
    } else {
        assert(mu.take(k) =~= mu);
    }
}

/// Counting bound for the strip search: a row takes one of at most `big` amounts of
/// the current letter, and a whole letter one of at most `big ^ n` distributions.
proof fn lemma_strip_bound(
    mu: Seq<usize>,
    step: int,
    row: int,
    left: int,
    from: int,
    shape: Seq<usize>,
    base: Seq<usize>,
    placed: Seq<usize>,
    room: Seq<usize>,
    big: int,
)
    requires
        0 <= step < mu.len(),
        0 <= row <= shape.len(),
        0 <= left < big,
        0 <= from,
        forall|k: int| 0 <= k < mu.len() ==> mu[k] < big,
    ensures
        ({
            let rest = pow(pow(big, shape.len()), (mu.len() - step - 1) as nat);
            let here = strip_completions(None, mu, step, row, left, from, shape, base, placed, room);
            &&& left == 0 ==> here <= rest
            &&& left > 0 && row < shape.len() && from <= left + 1 ==> here <= (left + 1 - from) * pow(
                big,
                (shape.len() - row - 1) as nat,
            ) * rest
            &&& from == 0 ==> here <= pow(big, (shape.len() - row) as nat) * rest
        }),
    decreases mu.len() - step, shape.len() - row, left + 1 - from,
{
    let n = shape.len();
    let p = pow(big, n);
    let rest = pow(p, (mu.len() - step - 1) as nat);
    let here = strip_completions(None, mu, step, row, left, from, shape, base, placed, room);
    reveal(pow);
    lemma_pow_positive(big, n);
    lemma_pow_positive(p, (mu.len() - step - 1) as nat);
    lemma_pow_positive(big, (n - row) as nat);
    if left == 0 {
        if step + 1 < mu.len() {
            let next_placed = Seq::new(n, |i: int| 0usize);
            let next_room = Seq::new(n, |i: int| prefix_total(placed, i) as usize);
            lemma_strip_bound(mu, step + 1, 0, mu[step + 1] as int, 0, shape, shape, next_placed, next_room, big);
            assert(pow(p, (mu.len() - step - 1) as nat) == p * pow(p, (mu.len() - step - 2) as nat));
        } else {
            assert(rest == 1);
        }
        assert(here <= pow(big, (n - row) as nat) * rest) by (nonlinear_arith)
            requires
                here <= rest,
                pow(big, (n - row) as nat) >= 1,
                rest >= 0,
        ;
    } else if row >= n {
        assert(here == 0);
        assert(0 <= pow(big, (n - row) as nat) * rest) by (nonlinear_arith)
            requires
                pow(big, (n - row) as nat) >= 1,
                rest >= 0,
        ;
    } else {
        let q = pow(big, (n - row - 1) as nat);
        lemma_pow_positive(big, (n - row - 1) as nat);
        assert(pow(big, (n - row) as nat) == big * q);
        let x = q * rest;
        assert(x >= 0) by (nonlinear_arith)
            requires
                q >= 1,
                rest >= 0,
                x == q * rest,
        ;
        if from <= left {
            let gap = if row == 0 {
                left
            } else {
                base[row - 1] - base[row]
            };
            if from > gap || mu[step] - left + from > room[row] {
                assert(here == 0);
            } else {
                lemma_strip_bound(
                    mu,
                    step,
                    row + 1,
                    left - from,
                    0,
                    shape.update(row, (shape[row] + from) as usize),
                    base,
                    placed.update(row, from as usize),
                    room,
                    big,
                );
                lemma_strip_bound(mu, step, row, left, from + 1, shape, base, placed, room, big);
                let down = strip_completions(
                    None,
                    mu,
                    step,
                    row + 1,
                    left - from,
                    0,
                    shape.update(row, (shape[row] + from) as usize),
                    base,
                    placed.update(row, from as usize),
                    room,
                );
                let after = strip_completions(None, mu, step, row, left, from + 1, shape, base, placed, room);
                assert(here == down + after);
                assert(down <= x) by {
                    if left - from == 0 {
                        assert(rest <= x) by (nonlinear_arith)
                            requires
                                q >= 1,
                                rest >= 0,
                                x == q * rest,
                        ;
                    }
                }
                assert(after <= (left - from) * x) by (nonlinear_arith)
                    requires
                        after <= (left + 1 - (from + 1)) * q * rest,
                        x == q * rest,
                        from <= left,
                ;
                assert(here <= (left + 1 - from) * q * rest) by (nonlinear_arith)
                    requires
                        here == down + after,
                        down <= x,
                        after <= (left - from) * x,
                        x == q * rest,
                ;
            }
            assert(here <= (left + 1 - from) * q * rest) by (nonlinear_arith)
                requires
                    here == 0 || here <= (left + 1 - from) * q * rest,
                    from <= left,
                    x == q * rest,
                    x >= 0,
            ;
        } else {
            assert(here == 0);
        }
        if from == 0 {
            assert(here <= big * q * rest) by (nonlinear_arith)
                requires
                    here <= (left + 1) * q * rest,
                    left + 1 <= big,
                    q >= 1,
                    rest >= 0,
            ;
            assert(big * q * rest == pow(big, (n - row) as nat) * rest);
        }
    }
}

/// The strip sequences of `lambda ⊗ mu` number at most `(|mu| + 1) ^ (n * mu.len())`,
/// where `n = lambda.len() + mu.len()` rows hold every shape they reach: each letter
/// places between 0 and `|mu|` boxes in each row.
pub proof fn lemma_pieri_count_bound(lambda: Seq<usize>, mu: Seq<usize>)
    requires
        is_partition(mu),
    ensures
        pieri_count(lambda, mu, None) <= pow(
            pow(seq_sum(mu) + 1, (lambda.len() + mu.len()) as nat),
            mu.len(),
        ),
{
    let big = seq_sum(mu) + 1;
    let n = lambda.len() + mu.len();
    reveal(pow);
    lemma_seq_sum_nonneg(mu);
    if mu.len() == 0 {
        assert(pow(pow(big, n as nat), 0) == 1);
    } else {
        assert forall|k: int| 0 <= k < mu.len() implies mu[k] < big by {
            crate::partition::lemma_part_le_sum(mu, k);
        }
        let start = padded(lambda, n as nat);
        lemma_strip_bound(
            mu,
            0,
            0,
            mu[0] as int,
            0,
            start,
            start,
            Seq::new(n as nat, |i: int| 0usize),
            Seq::new(n as nat, |i: int| usize::MAX),
            big,
        );
        let p = pow(big, n as nat);
        assert(pow(p, mu.len()) == p * pow(p, (mu.len() - 1) as nat));
    }
}

/// A point of the strip search from which every shape reached is a partition of `total`
/// that contains `lambda`: `base` is non-increasing and contains `lambda`, rows from `row`
/// on are as in `base`, each row before `row` has grown by a horizontal strip (to at least
/// its old length and at most the old length of the row above), and the boxes still to
/// place make up the total.
pub open spec fn strip_state_ok(
    lambda: Seq<usize>,
    mu: Seq<usize>,
    step: int,
    row: int,
    left: int,
    shape: Seq<usize>,
    base: Seq<usize>,
    total: int,
) -> bool {
    &&& 0 <= row <= shape.len()
    &&& base.len() == shape.len()
    &&& lambda.len() <= shape.len()
    &&& nonincreasing(base)
    &&& forall|i: int| 0 <= i < lambda.len() ==> lambda[i] <= #[trigger] base[i]
    &&& forall|i: int| row <= i < shape.len() ==> #[trigger] shape[i] == base[i]
    &&& forall|i: int| 0 <= i < row ==> base[i] <= #[trigger] shape[i]
    &&& forall|i: int| 0 < i < row ==> #[trigger] shape[i] <= base[i - 1]
    &&& seq_sum(shape) + left + tail_total(mu, step + 1) == total
}

proof fn lemma_state_nonincreasing(
    lambda: Seq<usize>,
    mu: Seq<usize>,
    step: int,
    row: int,
    left: int,
    shape: Seq<usize>,
    base: Seq<usize>,
    total: int,
)
    requires
        strip_state_ok(lambda, mu, step, row, left, shape, base, total),
    ensures
        nonincreasing(shape),
        forall|i: int| 0 <= i < shape.len() ==> base[i] <= #[trigger] shape[i],
{
    assert forall|i: int| 0 <= i < shape.len() implies base[i] <= #[trigger] shape[i] by {
        if i >= row {
            assert(shape[i] == base[i]);
        }
    }
    assert forall|i: int, j: int| 0 <= i <= j < shape.len() implies shape[j] <= shape[i] by {
        assert(base[i] <= shape[i]);
        if i < j {
            if j < row {
                assert(shape[j] <= base[j - 1]);
                assert(base[j - 1] <= base[i]);
            } else {
                assert(shape[j] == base[j]);
                assert(base[j] <= base[i]);
            }
        }
    }
}

proof fn lemma_sum_update(s: Seq<usize>, i: int, v: usize)
    requires
        0 <= i < s.len(),
    ensures
        seq_sum(s.update(i, v)) == seq_sum(s) + v - s[i],
    decreases s.len(),
{
    let u = s.update(i, v);
    if i == s.len() - 1 {
        assert(u.drop_last() =~= s.drop_last());
    } else {
        assert(u.drop_last() =~= s.drop_last().update(i, v));
        lemma_sum_update(s.drop_last(), i, v);
    }
}

proof fn lemma_trim_partition(s: Seq<usize>)
    requires
        nonincreasing(s),
    ensures
        is_partition(trim_zeros(s)),
        seq_sum(trim_zeros(s)) == seq_sum(s),
        forall|i: int| 0 <= i ==> #[trigger] part_at(trim_zeros(s), i) == part_at(s, i),
    decreases s.len(),
{
    if s.len() > 0 && s.last() == 0 {
        let d = s.drop_last();
        lemma_trim_partition(d);
        assert forall|i: int| 0 <= i implies #[trigger] part_at(trim_zeros(s), i) == part_at(s, i) by {
            assert(part_at(trim_zeros(d), i) == part_at(d, i));
        }
    } else if s.len() > 0 {
        assert forall|i: int| 0 <= i < s.len() implies s[i] > 0 by {
            assert(s[s.len() - 1] <= s[i]);
        }
    }
}

proof fn lemma_padded(lambda: Seq<usize>, n: nat)
    requires
        is_partition(lambda),
        lambda.len() <= n,
    ensures
        nonincreasing(padded(lambda, n)),
        seq_sum(padded(lambda, n)) == seq_sum(lambda),
    decreases n,
{
    let p = padded(lambda, n);
    assert forall|i: int, j: int| 0 <= i <= j < p.len() implies p[j] <= p[i] by {
        if j < lambda.len() {
            assert(lambda[j] <= lambda[i]);
        }
    }
    if n == lambda.len() {
        assert(p =~= lambda);
    } else {
        lemma_padded(lambda, (n - 1) as nat);
        assert(p.drop_last() =~= padded(lambda, (n - 1) as nat));
    }
}

/// Every shape a strip sequence reaches from a sound point of the search is a partition
/// of `total` that contains `lambda`.
proof fn lemma_strip_shapes(
    target: Seq<usize>,
    lambda: Seq<usize>,
    mu: Seq<usize>,
    step: int,
    row: int,
    left: int,
    from: int,
    shape: Seq<usize>,
    base: Seq<usize>,
    placed: Seq<usize>,
    room: Seq<usize>,
    total: int,
)
    requires
        strip_state_ok(lambda, mu, step, row, left, shape, base, total),
        total <= usize::MAX,
    ensures
        strip_completions(Some(target), mu, step, row, left, from, shape, base, placed, room) > 0 ==> {
            &&& is_partition(target)
            &&& seq_sum(target) == total
            &&& includes(target, lambda)
        },
    decreases mu.len() - step, shape.len() - row, left + 1 - from,
{
    let here = strip_completions(Some(target), mu, step, row, left, from, shape, base, placed, room);
    if step < 0 || step >= mu.len() || row < 0 || left < 0 || from < 0 {
    } else if left == 0 {
        lemma_state_nonincreasing(lambda, mu, step, row, left, shape, base, total);
        if step + 1 == mu.len() {
            if here > 0 {
                assert(target == trim_zeros(shape));
                lemma_trim_partition(shape);
                assert forall|i: int| 0 <= i implies #[trigger] part_at(lambda, i) <= part_at(target, i) by {
                    if i < lambda.len() {
                        assert(lambda[i] <= base[i]);
                        assert(base[i] <= shape[i]);
                    }
                }
            }
        } else {
            let n = shape.len();
            assert(strip_state_ok(lambda, mu, step + 1, 0, mu[step + 1] as int, shape, shape, total)) by {
                assert forall|i: int| 0 <= i < lambda.len() implies lambda[i] <= #[trigger] shape[i] by {
                    assert(lambda[i] <= base[i]);
                    assert(base[i] <= shape[i]);
                }
            }
            lemma_strip_shapes(
                target,
                lambda,
                mu,
                step + 1,
                0,
                mu[step + 1] as int,
                0,
                shape,
                shape,
                Seq::new(n, |i: int| 0usize),
                Seq::new(n, |i: int| prefix_total(placed, i) as usize),
                total,
            );
        }
    } else if row >= shape.len() {
    } else {
        let gap = if row == 0 {
            left
        } else {
            base[row - 1] - base[row]
        };
        if from > left || from > gap || mu[step] - left + from > room[row] {
        } else {
            let grown = shape.update(row, (shape[row] + from) as usize);
            assert(shape[row] + from <= usize::MAX) by {
                crate::partition::lemma_part_le_sum(shape, row);
                lemma_tail_nonneg(mu, step + 1);
            }
            lemma_sum_update(shape, row, (shape[row] + from) as usize);
            assert(strip_state_ok(lambda, mu, step, row + 1, left - from, grown, base, total)) by {
                assert(shape[row] == base[row]);
                assert forall|i: int| row + 1 <= i < grown.len() implies #[trigger] grown[i] == base[i] by {
                    assert(shape[i] == base[i]);
                }
                assert forall|i: int| 0 <= i < row + 1 implies base[i] <= #[trigger] grown[i] by {
                    if i < row {
                        assert(shape[i] == grown[i]);
                    }
                }
                assert forall|i: int| 0 < i < row + 1 implies #[trigger] grown[i] <= base[i - 1] by {
                    if i < row {
                        assert(shape[i] == grown[i]);
                    }
                }
            }
            lemma_strip_shapes(
                target,
                lambda,
                mu,
                step,
                row + 1,
                left - from,
                0,
                grown,
                base,
                placed.update(row, from as usize),
                room,
                total,
            );
            lemma_strip_shapes(target, lambda, mu, step, row, left, from + 1, shape, base, placed, room, total);
        }
    }
}

/// Every shape that a Littlewood-Richardson strip sequence carries `lambda` to is a
/// partition of `|lambda| + |mu|` that contains `lambda`.
pub proof fn lemma_pieri_shapes(lambda: Seq<usize>, mu: Seq<usize>, nu: Seq<usize>)
    requires
        is_partition(lambda),
        is_partition(mu),
        seq_sum(lambda) + seq_sum(mu) <= usize::MAX,
        pieri_count(lambda, mu, Some(nu)) > 0,
    ensures
        is_partition(nu),
        seq_sum(nu) == seq_sum(lambda) + seq_sum(mu),
        includes(nu, lambda),
{
    if mu.len() == 0 {
        assert(nu == lambda);
        assert(mu =~= Seq::<usize>::empty());
    } else {
        let n = lambda.len() + mu.len();
        let start = padded(lambda, n as nat);
        lemma_padded(lambda, n as nat);
        lemma_tail_total(mu, 1);
        lemma_prefix_step(mu, 0);
        assert(mu.take(0) =~= Seq::<usize>::empty());
        lemma_strip_shapes(
            nu,
            lambda,
            mu,
            0,
            0,
            mu[0] as int,
            0,
            start,
            start,
            Seq::new(n as nat, |i: int| 0usize),
            Seq::new(n as nat, |i: int| usize::MAX),
            seq_sum(lambda) + seq_sum(mu),
        );
    }
}

/// With nothing to add, the constructive rule and the Littlewood-Richardson coefficient
/// agree: `lambda` itself, once.
pub proof fn lemma_pieri_nothing_added(lam: Seq<usize>, nu: Seq<usize>)
    requires
        is_partition(lam),
        is_partition(nu),
        lam.len() <= usize::MAX,
        nu.len() <= usize::MAX,
    ensures
        pieri_count(lam, Seq::<usize>::empty(), Some(nu)) == lr_value(lam, Seq::<usize>::empty(), nu),
{
    lemma_lr_nothing_added(lam, nu);
}

/// `s` is empty or ends in a nonzero row.
pub open spec fn no_trailing_zero(s: Seq<usize>) -> bool {
    s.len() == 0 || s.last() != 0
}

pub proof fn lemma_trim_parts(s: Seq<usize>)
    ensures
        no_trailing_zero(trim_zeros(s)),
        forall|i: int| 0 <= i ==> #[trigger] part_at(trim_zeros(s), i) == part_at(s, i),
    decreases s.len(),
{
    if s.len() > 0 && s.last() == 0 {
        let d = s.drop_last();
        lemma_trim_parts(d);
        assert forall|i: int| 0 <= i implies #[trigger] part_at(trim_zeros(s), i) == part_at(s, i) by {
            assert(part_at(trim_zeros(d), i) == part_at(d, i));
        }
    }
}

/// Two sequences without trailing zero rows and with the same parts are equal.
proof fn lemma_same_parts_plain(a: Seq<usize>, b: Seq<usize>)
    requires
        no_trailing_zero(a),
        no_trailing_zero(b),
        forall|i: int| 0 <= i ==> #[trigger] part_at(a, i) == part_at(b, i),
    ensures
        a == b,
{
    if a.len() < b.len() {
        assert(part_at(a, b.len() - 1) == part_at(b, b.len() - 1));
    }
    if b.len() < a.len() {
        assert(part_at(a, a.len() - 1) == part_at(b, a.len() - 1));
    }
    assert forall|i: int| 0 <= i < a.len() implies a[i] == b[i] by {
        assert(part_at(a, i) == part_at(b, i));
    }
    assert(a =~= b);
}

/// The boxes `nu` has beyond `lam` in the rows `r..n`.
pub open spec fn rows_gain(nu: Seq<usize>, lam: Seq<usize>, r: int, n: int) -> int
    decreases n - r,
{
    if r >= n {
        0
    } else {
        part_at(nu, r) - part_at(lam, r) + rows_gain(nu, lam, r + 1, n)
    }
}

/// In each of the rows `r..n`, `nu` is at least as long as `lam` and at most as long as
/// the row of `lam` above: the boxes added there form a horizontal strip.
pub open spec fn strip_rows(nu: Seq<usize>, lam: Seq<usize>, r: int, n: int) -> bool {
    forall|i: int|
        r <= i < n ==> part_at(lam, i) <= #[trigger] part_at(nu, i) && (i > 0 ==> part_at(nu, i)
            <= part_at(lam, i - 1))
}

proof fn lemma_rows_gain(nu: Seq<usize>, lam: Seq<usize>, r: int, n: int)
    requires
        0 <= r <= n,
        strip_rows(nu, lam, r, n),
    ensures
        rows_gain(nu, lam, r, n) >= 0,
        rows_gain(nu, lam, r, n) == 0 ==> forall|i: int| r <= i < n ==> #[trigger] part_at(nu, i) == part_at(lam, i),
        rows_gain(nu, lam, r, n) + parts_before(nu, r) - parts_before(lam, r) == parts_before(nu, n)
            - parts_before(lam, n),
    decreases n - r,
{
    if r < n {
        assert(part_at(lam, r) <= part_at(nu, r));
        lemma_rows_gain(nu, lam, r + 1, n);
    }
}

/// The strip search with one letter, from row `r` on, reaches `nu` once if the rows
/// still to fill can grow to the rows of `nu` by a horizontal strip of the boxes left, and
/// not at all otherwise.
proof fn lemma_one_row_search(
    nu: Seq<usize>,
    lam: Seq<usize>,
    k: usize,
    r: int,
    left: int,
    from: int,
    shape: Seq<usize>,
    placed: Seq<usize>,
)
    requires
        is_partition(lam),
        is_partition(nu),
        seq_sum(lam) + k <= usize::MAX,
        0 <= r <= lam.len() + 1,
        0 <= left <= k,
        0 <= from,
        shape.len() == lam.len() + 1,
        forall|i: int| r <= i < shape.len() ==> #[trigger] shape[i] == part_at(lam, i),
    ensures
        ({
            let n: int = lam.len() as int + 1;
            let p = padded(lam, n as nat);
            strip_completions(
                Some(nu),
                seq![k],
                0,
                r,
                left,
                from,
                shape,
                p,
                placed,
                Seq::new(n as nat, |i: int| usize::MAX),
            ) == if (forall|i: int| 0 <= i < r ==> #[trigger] shape[i] == part_at(nu, i))
                && strip_rows(nu, lam, r, n) && nu.len() <= n && rows_gain(nu, lam, r, n) == left && (
            left > 0 && r < n ==> from <= part_at(nu, r) - part_at(lam, r)) {
                1nat
            } else {
                0nat
            }
        }),
    decreases lam.len() + 1 - r, left + 1 - from,
{
    let n: int = lam.len() as int + 1;
    let p = padded(lam, n as nat);
    let mu = seq![k];
    let m = Seq::new(n as nat, |i: int| usize::MAX);
    let here = strip_completions(Some(nu), mu, 0, r, left, from, shape, p, placed, m);
    let done = forall|i: int| 0 <= i < r ==> #[trigger] shape[i] == part_at(nu, i);
    assert(mu.len() == 1 && mu[0] == k);
    assert forall|i: int| 0 <= i < n implies #[trigger] p[i] == part_at(lam, i) by {}
    if left == 0 {
        lemma_trim_parts(shape);
        let t = trim_zeros(shape);
        if strip_rows(nu, lam, r, n) && rows_gain(nu, lam, r, n) == 0 {
            lemma_rows_gain(nu, lam, r, n);
        }
        if t == nu {
            assert forall|i: int| 0 <= i < r implies #[trigger] shape[i] == part_at(nu, i) by {
                assert(part_at(t, i) == part_at(shape, i));
            }
            assert forall|i: int| r <= i < n implies #[trigger] part_at(nu, i) == part_at(lam, i) by {
                assert(part_at(t, i) == part_at(shape, i));
                assert(shape[i] == part_at(lam, i));
            }
            assert(strip_rows(nu, lam, r, n)) by {
                assert forall|i: int| r <= i < n implies part_at(lam, i) <= #[trigger] part_at(nu, i) && (
                i > 0 ==> part_at(nu, i) <= part_at(lam, i - 1)) by {
                    assert(part_at(nu, i) == part_at(lam, i));
                    if i > 0 && i < lam.len() {
                        assert(lam[i] <= lam[i - 1]);
                    }
                }
            }
            lemma_rows_gain(nu, lam, r, n);
            assert(rows_gain(nu, lam, r, n) == 0) by {
                lemma_rows_gain_zero(nu, lam, r, n);
            }
            if nu.len() > n {
                assert(part_at(t, n as int) == part_at(shape, n as int));
                assert(nu[n as int] > 0);
            }
        } else {
            if done && strip_rows(nu, lam, r, n) && nu.len() <= n && rows_gain(nu, lam, r, n) == 0 {
                assert forall|i: int| 0 <= i implies #[trigger] part_at(t, i) == part_at(nu, i) by {
                    assert(part_at(t, i) == part_at(shape, i));
                    if r <= i < n {
                        assert(shape[i] == part_at(lam, i));
                    }
                }
                lemma_same_parts_plain(t, nu);
            }
        }
    } else if r >= n {
    } else {
        let d = part_at(nu, r) - part_at(lam, r);
        let gap = if r == 0 { left } else { p[r - 1] - p[r] };
        assert(shape[r] == part_at(lam, r));
        if r < n - 1 {
            crate::partition::lemma_part_le_sum(lam, r);
        }
        lemma_seq_sum_nonneg(lam);
        let fits = strip_rows(nu, lam, r, n);
        if fits {
            lemma_rows_gain(nu, lam, r + 1, n);
        }
        assert(fits <==> strip_rows(nu, lam, r + 1, n) && part_at(lam, r) <= part_at(nu, r) && (r > 0
            ==> part_at(nu, r) <= part_at(lam, r - 1))) by {
            if strip_rows(nu, lam, r + 1, n) && part_at(lam, r) <= part_at(nu, r) && (r > 0 ==> part_at(nu, r)
                <= part_at(lam, r - 1)) {
                assert forall|i: int| r <= i < n implies part_at(lam, i) <= #[trigger] part_at(nu, i) && (i
                    > 0 ==> part_at(nu, i) <= part_at(lam, i - 1)) by {
                    if i > r {
                    }
                }
            }
        }
        if from > left || from > gap || mu[0] - left + from > m[r] {
            if fits && strip_rows(nu, lam, r + 1, n) {
                lemma_rows_gain(nu, lam, r + 1, n);
            }
        } else {
            let grown = shape.update(r, (shape[r] + from) as usize);
            lemma_one_row_search(nu, lam, k, r + 1, left - from, 0, grown, placed.update(r, from as usize));
            lemma_one_row_search(nu, lam, k, r, left, from + 1, shape, placed);
            if strip_rows(nu, lam, r + 1, n) {
                lemma_rows_gain(nu, lam, r + 1, n);
            }
            let done2 = forall|i: int| 0 <= i < r + 1 ==> #[trigger] grown[i] == part_at(nu, i);
            assert(done2 <==> done && from == d) by {
                if done2 {
                    assert forall|i: int| 0 <= i < r implies #[trigger] shape[i] == part_at(nu, i) by {
                        assert(grown[i] == part_at(nu, i));
                    }
                    assert(grown[r] == part_at(nu, r));
                }
                if done && from == d {
                    assert forall|i: int| 0 <= i < r + 1 implies #[trigger] grown[i] == part_at(nu, i) by {
                        if i < r {
                            assert(shape[i] == part_at(nu, i));
                        }
                    }
                }
            }
            assert forall|i: int| r + 1 <= i < grown.len() implies #[trigger] grown[i] == part_at(lam, i) by {
                assert(shape[i] == part_at(lam, i));
            }
        }
    }
}

proof fn lemma_rows_gain_zero(nu: Seq<usize>, lam: Seq<usize>, r: int, n: int)
    requires
        0 <= r <= n,
        forall|i: int| r <= i < n ==> #[trigger] part_at(nu, i) == part_at(lam, i),
    ensures
        rows_gain(nu, lam, r, n) == 0,
    decreases n - r,
{
    if r < n {
        assert(part_at(nu, r) == part_at(lam, r));
        lemma_rows_gain_zero(nu, lam, r + 1, n);
    }
}

/// The words of length `n` over the single letter 1 that extend `pre` and satisfy `ok`:
/// the all-ones word, if it satisfies `ok`.
proof fn lemma_words_one_letter(pre: Seq<usize>, n: nat, ok: spec_fn(Seq<usize>) -> bool)
    requires
        pre.len() <= n,
        forall|i: int| 0 <= i < pre.len() ==> #[trigger] pre[i] == 1,
    ensures
        words_from(pre, n, 1, ok) == if ok(Seq::new(n, |i: int| 1usize)) {
            seq![Seq::new(n, |i: int| 1usize)]
        } else {
            Seq::<Seq<usize>>::empty()
        },
    decreases n - pre.len(),
{
    let ones = Seq::new(n, |i: int| 1usize);
    if pre.len() == n {
        assert(pre =~= ones);
    } else {
        lemma_words_one_letter(pre.push(1usize), n, ok);
        assert(words_with_next(pre, n, 1, ok, 2) == Seq::<Seq<usize>>::empty());
        assert(words_with_next(pre, n, 1, ok, 1) =~= words_from(pre.push(1usize), n, 1, ok));
    }
}

proof fn lemma_count_ones(n: nat)
    ensures
        count_of(Seq::new(n, |i: int| 1usize), 1) == n,
    decreases n,
{
    if n > 0 {
        lemma_count_ones((n - 1) as nat);
        assert(Seq::new(n, |i: int| 1usize).drop_last() =~= Seq::new((n - 1) as nat, |i: int| 1usize));
    }
}

/// No row of `nu` below the first reaches past the row of `lam` above it: the boxes of
/// `nu` outside `lam` lie in different columns.
pub open spec fn horizontal_strip(nu: Seq<usize>, lam: Seq<usize>) -> bool {
    forall|i: int| 1 <= i < nu.len() ==> #[trigger] nu[i] <= part_at(lam, i - 1)
}

/// With a single row `[k]` to add, the Littlewood-Richardson coefficient is 1 when
/// `nu / lam` is a horizontal strip of `k` boxes and 0 otherwise (the Pieri rule).
pub proof fn lemma_lr_one_row(lam: Seq<usize>, k: usize, nu: Seq<usize>)
    requires
        is_partition(lam),
        is_partition(nu),
        nu.len() <= usize::MAX,
        includes(nu, lam),
        seq_sum(nu) == seq_sum(lam) + k,
    ensures
        lr_value(lam, seq![k], nu) == if horizontal_strip(nu, lam) {
            1nat
        } else {
            0nat
        },
{
    let mu = seq![k];
    assert(mu.drop_last() =~= Seq::<usize>::empty());
    assert(seq_sum(Seq::<usize>::empty()) == 0);
    assert(seq_sum(mu) == k);
    lemma_skew_size(nu, lam);
    lemma_skew_facts(nu, lam);
    let cells = skew_cells(nu, lam);
    let n = cells.len();
    let ok = lr_word(nu, lam, mu);
    let ones = Seq::new(n, |i: int| 1usize);
    lemma_words_one_letter(Seq::empty(), n, ok);
    let f = pairs_map(cells, ones);
    lemma_pairs_map(cells, ones);
    assert forall|c: Cell| in_skew(nu, lam, c) implies f.dom().contains(c) && #[trigger] f[c] == 1 by {
        let j = choose|j: int| 0 <= j < cells.len() && #[trigger] cells[j] == c;
        assert(f[cells[j]] == ones[j]);
    }
    assert forall|c: Cell| #[trigger] f.dom().contains(c) implies f[c] == 1 by {
        let j = choose|j: int| 0 <= j < ones.len() && cells[j] == c;
        assert(f[cells[j]] == ones[j]);
    }
    lemma_filled_values_ones(f, crate::skew::reading_order(cells, nu.len() as int));
    lemma_count_ones(n);
    assert(has_content(ones, mu));
    assert(rows_weak(nu, lam, f)) by {
        assert forall|c: Cell|
            in_skew(nu, lam, c) && c.col >= 2 && in_skew(nu, lam, left_of(c)) implies f[left_of(c)] <= #[trigger] f[c] by {
            assert(f[left_of(c)] == 1);
        }
    }
    if horizontal_strip(nu, lam) {
        assert(cols_strict(nu, lam, f)) by {
            assert forall|c: Cell|
                in_skew(nu, lam, c) && c.row >= 2 && in_skew(nu, lam, above(c)) implies f[above(c)] < #[trigger] f[c] by {
                let i = c.row - 1;
                assert(nu[i] <= part_at(lam, i - 1));
                assert(cell_in(lam, above(c)));
            }
        }
        assert(ok(ones));
    } else {
        let i = choose|i: int| 1 <= i < nu.len() && !(#[trigger] nu[i] <= part_at(lam, i - 1));
        let c = Cell { row: (i + 1) as usize, col: nu[i] };
        assert(nu[i] <= nu[i - 1]);
        if i < lam.len() {
            assert(lam[i] <= lam[i - 1]);
        }
        assert(in_skew(nu, lam, c));
        assert(above(c) == Cell { row: i as usize, col: nu[i] });
        assert(in_skew(nu, lam, above(c)));
        assert(f[c] == 1 && f[above(c)] == 1);
        assert(!cols_strict(nu, lam, f));
        assert(!ok(ones));
    }
}

/// With a single row `[k]` to add, the constructive rule gives the Littlewood-Richardson
/// coefficient: `lambda ⊗ [k]` holds each partition that adds a horizontal strip of `k`
/// boxes to `lambda`, once.
pub proof fn lemma_pieri_one_row(lam: Seq<usize>, k: usize, nu: Seq<usize>)
    requires
        is_partition(lam),
        is_partition(nu),
        k > 0,
        seq_sum(lam) + k <= usize::MAX,
    ensures
        pieri_count(lam, seq![k], Some(nu)) == lr_value(lam, seq![k], nu),
{
    let n = lam.len() + 1;
    let p = padded(lam, n as nat);
    let mu = seq![k];
    assert(mu.drop_last() =~= Seq::<usize>::empty());
    assert(seq_sum(Seq::<usize>::empty()) == 0);
    assert(seq_sum(mu) == k);
    assert forall|i: int| 0 <= i < p.len() implies #[trigger] p[i] == part_at(lam, i) by {}
    lemma_one_row_search(nu, lam, k, 0, k as int, 0, p, Seq::new(n as nat, |i: int| 0usize));
    let a = strip_rows(nu, lam, 0, n as int) && nu.len() <= n && rows_gain(nu, lam, 0, n as int) == k;
    let b = seq_sum(nu) == seq_sum(lam) + k && includes(nu, lam) && horizontal_strip(nu, lam);
    lemma_parts_before(nu, n as int);
    lemma_parts_before(lam, n as int);
    assert(parts_before(nu, 0) == 0 && parts_before(lam, 0) == 0);
    if a {
        lemma_rows_gain(nu, lam, 0, n as int);
        assert(includes(nu, lam)) by {
            assert forall|i: int| 0 <= i implies #[trigger] part_at(lam, i) <= part_at(nu, i) by {
                if i < n {
                    assert(part_at(lam, i) <= part_at(nu, i));
                }
            }
        }
        assert(horizontal_strip(nu, lam)) by {
            assert forall|i: int| 1 <= i < nu.len() implies #[trigger] nu[i] <= part_at(lam, i - 1) by {
                assert(part_at(lam, i) <= part_at(nu, i));
            }
        }
    }
    if b {
        if nu.len() > n {
            let i = n as int;
            assert(nu[i] <= part_at(lam, i - 1));
        }
        assert(strip_rows(nu, lam, 0, n as int)) by {
            assert forall|i: int| 0 <= i < n implies part_at(lam, i) <= #[trigger] part_at(nu, i) && (i
                > 0 ==> part_at(nu, i) <= part_at(lam, i - 1)) by {
                assert(part_at(lam, i) <= part_at(nu, i));
                if i > 0 && i < nu.len() {
                    assert(nu[i] <= part_at(lam, i - 1));
                }
            }
        }
        lemma_rows_gain(nu, lam, 0, n as int);
    }
    assert(a == b);
    if includes(nu, lam) && seq_sum(nu) == seq_sum(lam) + k {
        crate::partition::lemma_len_le_sum(nu);
        lemma_lr_one_row(lam, k, nu);
    }
}

/// The entries of `all_nu` whose value is positive, each with its value, in the order of
/// `all_nu`.
fn keep_positive(
    all_nu: &Vec<Partition>,
    values: &Vec<usize>,
    Ghost(value): Ghost<spec_fn(Seq<usize>) -> nat>,
    Ghost(total): Ghost<int>,
) -> (r: Vec<(Partition, usize)>)
    requires
        values@.len() == all_nu@.len(),
        forall|k: int| 0 <= k < all_nu@.len() ==> values@[k] == value(#[trigger] all_nu@[k]@),
        forall|k: int|
            0 <= k < all_nu@.len() ==> is_partition(#[trigger] all_nu@[k]@) && seq_sum(all_nu@[k]@)
                == total,
        strictly_decreasing(views(all_nu@)),
    ensures
        forall|i: int|
            0 <= i < r.len() ==> {
                let (nu, c) = #[trigger] r@[i];
                &&& is_partition(nu@)
                &&& seq_sum(nu@) == total
                &&& c == value(nu@)
                &&& c > 0
            },
        forall|j: int|
            0 <= j < all_nu@.len() && value(views(all_nu@)[j]) > 0 ==> #[trigger] decomposition_views(
                r@,
            ).contains(views(all_nu@)[j]),
        strictly_decreasing(decomposition_views(r@)),
        r@.len() <= all_nu@.len(),
{
    let ghost all = views(all_nu@);
    let mut result: Vec<(Partition, usize)> = Vec::new();
    let mut i: usize = 0;
    while i < all_nu.len()
        invariant
            i <= all_nu@.len(),
            all == views(all_nu@),
            values@.len() == all_nu@.len(),
            forall|k: int| 0 <= k < all_nu@.len() ==> values@[k] == value(#[trigger] all_nu@[k]@),
            forall|k: int|
                0 <= k < all_nu@.len() ==> is_partition(#[trigger] all_nu@[k]@) && seq_sum(
                    all_nu@[k]@,
                ) == total,
            strictly_decreasing(all),
            forall|k: int|
                0 <= k < result@.len() ==> {
                    let (nu, c) = #[trigger] result@[k];
                    &&& is_partition(nu@)
                    &&& seq_sum(nu@) == total
                    &&& c == value(nu@)
                    &&& c > 0
                },
            // each entry of the result comes from an earlier position of the full list
            forall|k: int|
                0 <= k < result@.len() ==> exists|j: int|
                    0 <= j < i && #[trigger] decomposition_views(result@)[k] == all[j],
            forall|j: int|
                0 <= j < i && value(all[j]) > 0 ==> #[trigger] decomposition_views(result@).contains(
                    all[j],
                ),
            strictly_decreasing(decomposition_views(result@)),
            result@.len() <= i,
        decreases all_nu.len() - i,
    {
        let ghost before = decomposition_views(result@);
        proof {
            assert(all[i as int] == all_nu@[i as int]@);
        }
        if values[i] > 0 {
            let nu = all_nu[i].clone();
            result.push((nu, values[i]));
            proof {
                let after = decomposition_views(result@);
                assert(after =~= before.push(all[i as int]));
                assert forall|a: int, b: int| 0 <= a < b < after.len() implies lex_lt(
                    #[trigger] after[b],
                    #[trigger] after[a],
                ) by {
                    if b == after.len() - 1 {
                        let j = choose|j: int| 0 <= j < i && #[trigger] before[a] == all[j];
                        assert(lex_lt(all[i as int], all[j]));
                    } else {
                        assert(after[a] == before[a] && after[b] == before[b]);
                    }
                }
                assert forall|k: int| 0 <= k < result@.len() implies exists|j: int|
                    0 <= j < i + 1 && #[trigger] decomposition_views(result@)[k] == all[j] by {
                    if k < before.len() {
                        let j = choose|j: int| 0 <= j < i && #[trigger] before[k] == all[j];
                        assert(after[k] == all[j]);
                    } else {
                        assert(after[k] == all[i as int]);
                    }
                }
                assert forall|j: int| 0 <= j < i + 1 && value(all[j]) > 0 implies #[trigger] decomposition_views(
                    result@,
                ).contains(all[j]) by {
                    if j < i {
                        assert(before.contains(all[j]));
                        let k = choose|k: int| 0 <= k < before.len() && before[k] == all[j];
                        assert(after[k] == all[j]);
                    } else {
                        assert(after[after.len() - 1] == all[j]);
                    }
                }
            }
        }
        i = i + 1;
    }
    result
}

/// The shapes of the entries, in order.
pub open spec fn shape_keys(v: Seq<(Vec<usize>, usize)>) -> Seq<Seq<usize>> {
    Seq::new(v.len(), |i: int| v[i].0@)
}

proof fn lemma_tally_insert(
    v: Seq<(Vec<usize>, usize)>,
    p: int,
    e: (Vec<usize>, usize),
    target: Option<Seq<usize>>,
)
    requires
        0 <= p <= v.len(),
    ensures
        tally(v.insert(p, e), target) == tally(v, target) + if matches_target(target, e.0@) {
            e.1 as int
        } else {
            0
        },
    decreases v.len(),
{
    let w = v.insert(p, e);
    if p == v.len() {
        assert(w =~= v.push(e));
        lemma_tally_push(v, e, target);
    } else {
        assert(w.drop_last() =~= v.drop_last().insert(p, e));
        assert(w.last() == v.last());
        lemma_tally_insert(v.drop_last(), p, e, target);
    }
}

/// `a` comes before `b` in lexicographic order.
fn lex_less(a: &[usize], b: &[usize]) -> (r: bool)
    ensures
        r == lex_lt(a@, b@),
{
    let mut i: usize = 0;
    assert(a@.skip(0) =~= a@);
    assert(b@.skip(0) =~= b@);
    while i < a.len() && i < b.len() && a[i] == b[i]
        invariant
            i <= a@.len(),
            i <= b@.len(),
            lex_lt(a@, b@) == lex_lt(a@.skip(i as int), b@.skip(i as int)),
        decreases a@.len() - i,
    {
        assert(a@.skip(i as int).drop_first() =~= a@.skip(i + 1));
        assert(b@.skip(i as int).drop_first() =~= b@.skip(i + 1));
        i = i + 1;
    }
    if i < a.len() && i < b.len() {
        assert(a@.skip(i as int)[0] == a@[i as int]);
        assert(b@.skip(i as int)[0] == b@[i as int]);
        a[i] < b[i]
    } else {
        i == a.len() && i < b.len()
    }
}

/// The entries of `results`, largest shape first.
fn sorted_by_shape(results: &Vec<(Vec<usize>, usize)>) -> (r: Vec<(Vec<usize>, usize)>)
    requires
        tally_ok(results@),
    ensures
        tally_ok(r@),
        forall|t: Option<Seq<usize>>| #[trigger] tally(r@, t) == tally(results@, t),
        strictly_decreasing(shape_keys(r@)),
{
    let mut r: Vec<(Vec<usize>, usize)> = Vec::new();
    let mut i: usize = 0;
    assert(results@.take(0) =~= Seq::<(Vec<usize>, usize)>::empty());
    while i < results.len()
        invariant
            i <= results@.len(),
            tally_ok(results@),
            tally_ok(r@),
            strictly_decreasing(shape_keys(r@)),
            forall|t: Option<Seq<usize>>| #[trigger] tally(r@, t) == tally(results@.take(i as int), t),
        decreases results@.len() - i,
    {
        let key = copy_row(&results[i].0);
        let c = results[i].1;
        proof {
            assert forall|j: int| 0 <= j < results@.take(i as int).len() implies #[trigger] results@.take(
                i as int,
            )[j].0@ != key@ by {
                assert(results@.take(i as int)[j] == results@[j]);
            }
            lemma_tally_absent(results@.take(i as int), key@);
            assert forall|k: int| 0 <= k < r@.len() implies #[trigger] r@[k].0@ != key@ by {
                lemma_tally_entry(r@, k);
            }
        }
        let mut p: usize = 0;
        while p < r.len() && lex_less(key.as_slice(), r[p].0.as_slice())
            invariant
                p <= r@.len(),
                forall|q: int| 0 <= q < p ==> lex_lt(key@, #[trigger] shape_keys(r@)[q]),
            decreases r@.len() - p,
        {
            p = p + 1;
        }
        let ghost old_r = r@;
        let ghost ks = shape_keys(old_r);
        proof {
            if p < old_r.len() {
                assert(ks[p as int] == old_r[p as int].0@);
                crate::partition::lemma_lex_lt_total(key@, ks[p as int]);
            }
        }
        r.insert(p, (key, c));
        proof {
            let nk = shape_keys(r@);
            assert(nk =~= ks.insert(p as int, key@));
            assert forall|a: int, b: int| 0 <= a < b < nk.len() implies lex_lt(
                #[trigger] nk[b],
                #[trigger] nk[a],
            ) by {
                if a == p {
                    if b - 1 > p {
                        assert(lex_lt(ks[b - 1], ks[p as int]));
                        crate::partition::lemma_lex_lt_strict(ks[b - 1], ks[p as int], key@);
                    }
                } else if b == p {
                } else {
                    let a0 = if a < p { a } else { a - 1 };
                    let b0 = if b < p { b } else { b - 1 };
                    assert(nk[a] == ks[a0] && nk[b] == ks[b0]);
                }
            }
            assert forall|t: Option<Seq<usize>>| #[trigger] tally(r@, t) == tally(results@.take(i + 1), t) by {
                lemma_tally_insert(old_r, p as int, (key, c), t);
                assert(results@.take(i + 1).drop_last() =~= results@.take(i as int));
            }
            assert forall|a: int, b: int| 0 <= a < b < r@.len() implies #[trigger] r@[a].0@
                != #[trigger] r@[b].0@ by {
                crate::partition::lemma_lex_lt_strict(nk[b], nk[a], nk[a]);
                assert(nk[a] == r@[a].0@ && nk[b] == r@[b].0@);
            }
            assert forall|a: int| 0 <= a < r@.len() implies #[trigger] r@[a].1 >= 1 by {
                if a < p {
                    assert(r@[a] == old_r[a]);
                } else if a > p {
                    assert(r@[a] == old_r[a - 1]);
                }
            }
        }
        i = i + 1;
    }
    assert(results@.take(i as int) =~= results@);
    r
}

/// The decomposition of `lambda ⊗ mu` by the constructive Littlewood-Richardson rule,
/// the generalized Pieri rule: every partition that a Littlewood-Richardson strip
/// sequence carries `lambda` to (letter `k` adds `mu[k - 1]` boxes as a horizontal strip),
/// with the number of such sequences (its Littlewood-Richardson coefficient), largest
/// partition first.
pub fn pieri_decompose(lambda: &Partition, mu: &Partition) -> (r: Vec<(Partition, usize)>)
    requires
        seq_sum(lambda@) + seq_sum(mu@) <= usize::MAX,
        forall|nu: Seq<usize>|
            is_partition(nu) && seq_sum(nu) == seq_sum(lambda@) + seq_sum(mu@) ==> #[trigger] pieri_count(
                lambda@,
                mu@,
                Some(nu),
            ) <= usize::MAX,
    ensures
        forall|i: int|
            0 <= i < r.len() ==> {
                let (nu, c) = #[trigger] r@[i];
                &&& is_partition(nu@)
                &&& seq_sum(nu@) == seq_sum(lambda@) + seq_sum(mu@)
                &&& c == pieri_count(lambda@, mu@, Some(nu@))
                &&& c > 0
            },
        forall|nu: Seq<usize>|
            pieri_count(lambda@, mu@, Some(nu)) > 0 ==> #[trigger] decomposition_views(r@).contains(nu),
        strictly_decreasing(decomposition_views(r@)),
        seq_sum(lambda@) + seq_sum(mu@) < usize::MAX ==> forall|i: int|
            0 <= i < r.len() ==> (#[trigger] r@[i]).1 == words_from(
                Seq::<usize>::empty(),
                (mu@.len() * (lambda@.len() + mu@.len())) as nat,
                (seq_sum(mu@) + 1) as nat,
                strip_word(lambda@, mu@, r@[i].0@, (lambda@.len() + mu@.len()) as int),
            ).len(),
        seq_sum(lambda@) + seq_sum(mu@) < usize::MAX ==> forall|i: int|
            0 <= i < r.len() ==> (#[trigger] r@[i]).1 == lr_value(lambda@, mu@, r@[i].0@),
{
    proof {
        use_type_invariant(lambda);
        use_type_invariant(mu);
        lemma_seq_sum_nonneg(lambda@);
        lemma_seq_sum_nonneg(mu@);
    }
    if mu.is_empty() {
        let r = vec![(lambda.clone(), 1)];
        proof {
            assert(mu@ =~= Seq::<usize>::empty());
            assert(seq_sum(mu@) == 0);
            assert(decomposition_views(r@) =~= seq![lambda@]);
            assert(decomposition_views(r@)[0] == lambda@);
            if seq_sum(lambda@) + seq_sum(mu@) < usize::MAX {
                assert forall|i: int| 0 <= i < r.len() implies (#[trigger] r@[i]).1 == words_from(
                    Seq::<usize>::empty(),
                    (mu@.len() * (lambda@.len() + mu@.len())) as nat,
                    (seq_sum(mu@) + 1) as nat,
                    strip_word(lambda@, mu@, r@[i].0@, (lambda@.len() + mu@.len()) as int),
                ).len() by {
                    lemma_pieri_counts_strip_words(lambda@, mu@, r@[i].0@);
                }
                assert forall|i: int| 0 <= i < r.len() implies (#[trigger] r@[i]).1 == lr_value(lambda@, mu@, r@[i].0@) by {
                    lemma_pieri_count_is_lr(lambda@, mu@, r@[i].0@);
                }
            }
        }
        return r;
    }
    let lp = lambda.parts();
    let mp = mu.parts();
    proof {
        crate::partition::lemma_len_le_sum(lambda@);
        crate::partition::lemma_len_le_sum(mu@);
    }
    let n = lp.len() + mp.len();
    let ghost start = padded(lambda@, n as nat);
    let mut shape: Vec<usize> = Vec::new();
    let mut i: usize = 0;
    while i < n
        invariant
            i <= n,
            lp@ == lambda@,
            n == lambda@.len() + mu@.len(),
            start == padded(lambda@, n as nat),
            shape@ == start.take(i as int),
        decreases n - i,
    {
        if i < lp.len() {
            shape.push(lp[i]);
        } else {
            shape.push(0);
        }
        i = i + 1;
        assert(shape@ =~= start.take(i as int));
    }
    assert(shape@ =~= start);
    let mut mu_parts: Vec<usize> = Vec::new();
    let mut j: usize = 0;
    while j < mp.len()
        invariant
            j <= mp@.len(),
            mp@ == mu@,
            mu_parts@ == mu@.take(j as int),
        decreases mp@.len() - j,
    {
        mu_parts.push(mp[j]);
        j = j + 1;
        assert(mu_parts@ =~= mu@.take(j as int));
    }
    assert(mu_parts@ =~= mu@);
    let base = copy_row(&shape);
    let mut curr = filled_row(n, 0);
    let room = filled_row(n, usize::MAX);
    let mut results: Vec<(Vec<usize>, usize)> = Vec::new();
    proof {
        assert(curr@.take(0) =~= Seq::<usize>::empty());
        assert(curr@ =~= Seq::new(n as nat, |k: int| 0usize));
        assert(room@ =~= Seq::new(n as nat, |k: int| usize::MAX));
        lemma_tail_total(mu@, 1);
        lemma_prefix_step(mu@, 0);
        assert(mu@.take(0) =~= Seq::<usize>::empty());
        assert forall|k: int| 0 <= k < n implies shape@[k] + mp@[0] + tail_total(mu@, 1) <= usize::MAX by {
            if k < lambda@.len() {
                crate::partition::lemma_part_le_sum(lambda@, k);
            }
        }
    }
    proof {
        assert forall|nu: Seq<usize>|
            #[trigger] tally(results@, Some(nu)) + strip_completions(
                Some(nu),
                mu_parts@,
                0,
                0,
                mp@[0] as int,
                0,
                shape@,
                base@,
                curr@,
                room@,
            ) <= usize::MAX by {
            if pieri_count(lambda@, mu@, Some(nu)) > 0 {
                lemma_pieri_shapes(lambda@, mu@, nu);
            }
        }
    }
    distribute(0, mp[0], 0, &mut shape, &base, &mut curr, &room, &mu_parts, &mut results);
    let sorted = sorted_by_shape(&results);
    let mut r: Vec<(Partition, usize)> = Vec::new();
    let mut k: usize = 0;
    while k < sorted.len()
        invariant
            k <= sorted@.len(),
            tally_ok(sorted@),
            strictly_decreasing(shape_keys(sorted@)),
            forall|t: Option<Seq<usize>>| #[trigger] tally(sorted@, t) == pieri_count(lambda@, mu@, t),
            seq_sum(lambda@) + seq_sum(mu@) <= usize::MAX,
            is_partition(lambda@),
            is_partition(mu@),
            decomposition_views(r@) == shape_keys(sorted@).take(k as int),
            forall|q: int|
                0 <= q < r.len() ==> {
                    let (nu, c) = #[trigger] r@[q];
                    &&& is_partition(nu@)
                    &&& seq_sum(nu@) == seq_sum(lambda@) + seq_sum(mu@)
                    &&& c == pieri_count(lambda@, mu@, Some(nu@))
                    &&& c > 0
                },
        decreases sorted@.len() - k,
    {
        let key = copy_row(&sorted[k].0);
        let c = sorted[k].1;
        proof {
            lemma_tally_distinct(sorted@, k as int);
            lemma_pieri_shapes(lambda@, mu@, key@);
        }
        let ghost before = r@;
        match Partition::new(key) {
            Ok(nu) => {
                r.push((nu, c));
                proof {
                    assert(decomposition_views(r@) =~= decomposition_views(before).push(shape_keys(sorted@)[k as int]));
                    assert(shape_keys(sorted@).take(k + 1) =~= shape_keys(sorted@).take(k as int).push(shape_keys(sorted@)[k as int]));
                }
            },
            Err(_) => {
                assert(false);
            },
        }
        k = k + 1;
    }
    proof {
        assert(shape_keys(sorted@).take(k as int) =~= shape_keys(sorted@));
        assert forall|nu: Seq<usize>|
            pieri_count(lambda@, mu@, Some(nu)) > 0 implies #[trigger] decomposition_views(r@).contains(nu) by {
            if forall|q: int| 0 <= q < sorted@.len() ==> #[trigger] sorted@[q].0@ != nu {
                lemma_tally_absent(sorted@, nu);
            }
            let q = choose|q: int| 0 <= q < sorted@.len() && #[trigger] sorted@[q].0@ == nu;
            assert(decomposition_views(r@)[q] == nu);
        }
    }
    proof {
        if seq_sum(lambda@) + seq_sum(mu@) < usize::MAX {
            assert forall|i: int| 0 <= i < r.len() implies (#[trigger] r@[i]).1 == words_from(
                Seq::<usize>::empty(),
                (mu@.len() * (lambda@.len() + mu@.len())) as nat,
                (seq_sum(mu@) + 1) as nat,
                strip_word(lambda@, mu@, r@[i].0@, (lambda@.len() + mu@.len()) as int),
            ).len() by {
                lemma_pieri_counts_strip_words(lambda@, mu@, r@[i].0@);
            }
            assert forall|i: int| 0 <= i < r.len() implies (#[trigger] r@[i]).1 == lr_value(lambda@, mu@, r@[i].0@) by {
                lemma_pieri_count_is_lr(lambda@, mu@, r@[i].0@);
            }
        }
    }
    r
}

/// A Littlewood-Richardson coefficient is at most `mu.len()` to the power `|mu|`: each
/// of the `|mu|` cells of the skew shape holds one of `mu.len()` letters.
pub proof fn lemma_lr_value_bound(lam: Seq<usize>, mu: Seq<usize>, nu: Seq<usize>)
    requires
        is_partition(lam),
        is_partition(nu),
        nu.len() <= usize::MAX,
    ensures
        lr_value(lam, mu, nu) <= pow(mu.len() as int, seq_sum(mu) as nat),
{
    lemma_seq_sum_nonneg(mu);
    lemma_pow_nonneg(mu.len() as int, seq_sum(mu) as nat);
    if seq_sum(nu) == seq_sum(lam) + seq_sum(mu) && includes(nu, lam) {
        lemma_skew_size(nu, lam);
        lemma_words_count(Seq::empty(), skew_cells(nu, lam).len(), mu.len(), lr_word(nu, lam, mu));
    }
}

} // verus!
