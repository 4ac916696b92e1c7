//! Littlewood-Richardson tableaux and strip sequences correspond one to one: reading the
//! boxes of each letter row by row turns a tableau into a strip sequence, and writing
//! each row's letters in increasing order turns it back. So the constructive decomposition
//! counts exactly the Littlewood-Richardson coefficients. The tableaux whose content is
//! all ones are counted too: the dual Pieri rule.
use vstd::prelude::*;
use crate::cell::{Cell, cell_in, before};
use crate::enumeration::{pairs_map, lemma_pairs_map};
use crate::partition::{is_partition, part_at, seq_sum, includes, lemma_part_le_sum, lemma_seq_sum_nonneg};
use crate::skew::{skew_cells, in_row, reading_order, filled_values, row_major, lemma_in_row,
    lemma_filled_values_concat};
use crate::lr_rule::{in_skew, lemma_skew_facts, lemma_outside_concat, trim_zeros, padded, rows_weak, cols_strict,
    lemma_trim_parts, prefix_total, lemma_prefix_step, lemma_prefix_mono,
    left_of, above, lr_word};
use crate::strips::{strip_entry, letter_rows, row_before, rows_after, strip_word, lemma_letter_rows_mono,
    lemma_trim_padded};
use vstd::arithmetic::div_mod::{lemma_fundamental_div_mod, lemma_mod_pos_bound, lemma_div_pos_is_pos};
use vstd::arithmetic::div_mod::{lemma_fundamental_div_mod_converse_div, lemma_fundamental_div_mod_converse_mod};
use crate::diagram::{diagram_cells, row_cells};
use crate::skew::{outside, reading_word_of, count_of, lemma_count_absent, is_lattice, lemma_lattice_prefixes};
use crate::lr_rule::{lr_tableaux, lr_value, pieri_count, lemma_pieri_shapes, lemma_pieri_nothing_added, lemma_skew_size};
use crate::words::{words_from, completes, lemma_words_from, lemma_words_sorted};
use crate::partition::{lex_lt, lemma_lex_lt_strict, lemma_len_le_sum};
use crate::strips::lemma_pieri_counts_strip_words;
use vstd::set_lib::lemma_map_size;
use vstd::seq_lib::seq_to_set_is_finite;

verus! {

/// The cells of row `r + 1` from column `lo + 1` to column `hi`, left to right.
pub open spec fn row_span(r: int, lo: int, hi: int) -> Seq<Cell> {
    Seq::new((hi - lo) as nat, |t: int| Cell { row: (r + 1) as usize, col: (lo + 1 + t) as usize })
}

proof fn lemma_consecutive(s: Seq<Cell>, r: int, lo: int, hi: int, t: int)
    requires
        0 <= lo <= hi <= usize::MAX,
        0 <= r < usize::MAX,
        forall|c: Cell| #[trigger] s.contains(c) <==> (c.row == r + 1 && lo < c.col <= hi),
        forall|a: int, b: int| 0 <= a < b < s.len() ==> #[trigger] s[a].col < #[trigger] s[b].col,
        0 <= t < s.len(),
    ensures
        s[t].col == lo + 1 + t,
    decreases t,
{
    assert(s.contains(s[t]));
    if t == 0 {
        let c = Cell { row: (r + 1) as usize, col: (lo + 1) as usize };
        assert(s.contains(c));
        let i = choose|i: int| 0 <= i < s.len() && s[i] == c;
        if i > 0 {
            assert(s[0].col < s[i].col);
        }
    } else {
        lemma_consecutive(s, r, lo, hi, t - 1);
        let c = Cell { row: (r + 1) as usize, col: (lo + 1 + t) as usize };
        assert(s[t - 1].col < s[t].col);
        assert(s.contains(c));
        let i = choose|i: int| 0 <= i < s.len() && s[i] == c;
        if i < t {
            if i < t - 1 {
                assert(s[i].col < s[t - 1].col);
            }
        } else if i > t {
            assert(s[t].col < s[i].col);
        }
    }
}

/// The cells of row `r + 1` of the skew shape `nu / lam`, in the order they are listed:
/// columns `lam[r] + 1` to `nu[r]`, left to right.
pub proof fn lemma_skew_row(nu: Seq<usize>, lam: Seq<usize>, r: int)
    requires
        is_partition(nu),
        nu.len() < usize::MAX,
        includes(nu, lam),
        0 <= r,
    ensures
        in_row(skew_cells(nu, lam), r + 1) == row_span(r, part_at(lam, r), part_at(nu, r)),
{
    let cells = skew_cells(nu, lam);
    lemma_skew_facts(nu, lam);
    assert(row_major(cells)) by {
        assert forall|a: int, b: int| 0 <= a < b < cells.len() implies before(#[trigger] cells[a], #[trigger] cells[b]) by {}
    }
    lemma_in_row(cells, r + 1);
    let s = in_row(cells, r + 1);
    let lo = part_at(lam, r);
    let hi = part_at(nu, r);
    assert(lo <= hi);
    assert forall|c: Cell| #[trigger] s.contains(c) <==> (c.row == r + 1 && lo < c.col <= hi) by {
        if c.row == r + 1 && lo < c.col <= hi {
            assert(in_skew(nu, lam, c));
            let k = choose|k: int| 0 <= k < cells.len() && #[trigger] cells[k] == c;
            assert(cells.contains(c));
        }
        if s.contains(c) {
            assert(cells.contains(c));
            let k = choose|k: int| 0 <= k < cells.len() && cells[k] == c;
            assert(in_skew(nu, lam, cells[k]));
        }
    }
    if r >= nu.len() {
        if s.len() > 0 {
            assert(s.contains(s[0]));
        }
        assert(s =~= row_span(r, lo, hi));
    } else {
        if hi <= usize::MAX {
        }
        assert forall|t: int| 0 <= t < s.len() implies #[trigger] s[t] == row_span(r, lo, hi)[t] || t >= hi - lo by {
            lemma_consecutive(s, r, lo, hi, t);
            assert(s.contains(s[t]));
        }
        if s.len() > 0 {
            lemma_consecutive(s, r, lo, hi, s.len() - 1);
            assert(s.contains(s[s.len() - 1]));
        }
        if hi > lo {
            let c = Cell { row: (r + 1) as usize, col: hi as usize };
            assert(s.contains(c));
            let i = choose|i: int| 0 <= i < s.len() && s[i] == c;
            lemma_consecutive(s, r, lo, hi, i);
        }
        assert(s.len() == hi - lo);
        assert forall|t: int| 0 <= t < s.len() implies #[trigger] s[t] == row_span(r, lo, hi)[t] by {
            lemma_consecutive(s, r, lo, hi, t);
            assert(s.contains(s[t]));
        }
        assert(s =~= row_span(r, lo, hi));
    }
}

/// The cells of the first `k` rows of the skew shape `nu / lam`, row by row.
pub open spec fn skew_rows(nu: Seq<usize>, lam: Seq<usize>, k: int) -> Seq<Cell>
    decreases k,
{
    if k <= 0 {
        Seq::empty()
    } else {
        let a = part_at(lam, k - 1);
        let b = part_at(nu, k - 1);
        skew_rows(nu, lam, k - 1) + row_span(k - 1, if a < b { a } else { b }, b)
    }
}

proof fn lemma_outside_row_span(r: int, len: int, inner: Seq<usize>)
    requires
        0 <= r < usize::MAX,
        0 <= len <= usize::MAX,
    ensures
        outside(row_cells(r + 1, len), inner) == row_span(
            r,
            if part_at(inner, r) < len { part_at(inner, r) } else { len },
            len,
        ),
    decreases len,
{
    if len > 0 {
        lemma_outside_row_span(r, len - 1, inner);
        assert(row_cells(r + 1, len).drop_last() =~= row_cells(r + 1, len - 1));
        let c = row_cells(r + 1, len).last();
        assert(c == Cell { row: (r + 1) as usize, col: len as usize });
        assert(cell_in(inner, c) <==> len <= part_at(inner, r));
        let a = part_at(inner, r);
        if len <= a {
            assert(row_span(r, len, len) =~= row_span(r, len - 1, len - 1));
        } else {
            let lo = if a < len - 1 { a } else { len - 1 };
            assert(lo == a);
            assert(row_span(r, a, len) =~= row_span(r, a, len - 1).push(c));
        }
    } else {
        assert(row_cells(r + 1, 0) =~= Seq::<Cell>::empty());
        assert(row_span(r, 0, 0) =~= Seq::<Cell>::empty());
    }
}

proof fn lemma_skew_rows_prefix(nu: Seq<usize>, lam: Seq<usize>, k: int)
    requires
        nu.len() > 0,
        0 <= k < nu.len(),
    ensures
        skew_rows(nu.drop_last(), lam, k) == skew_rows(nu, lam, k),
    decreases k,
{
    if k > 0 {
        lemma_skew_rows_prefix(nu, lam, k - 1);
        assert(part_at(nu.drop_last(), k - 1) == part_at(nu, k - 1));
    }
}

/// The listed cells of `nu / lam` are its rows, one after the other.
pub proof fn lemma_skew_cells_rows(nu: Seq<usize>, lam: Seq<usize>)
    requires
        nu.len() < usize::MAX,
    ensures
        skew_cells(nu, lam) == skew_rows(nu, lam, nu.len() as int),
    decreases nu.len(),
{
    if nu.len() > 0 {
        let d = nu.drop_last();
        let k = nu.len() as int;
        lemma_skew_cells_rows(d, lam);
        lemma_skew_rows_prefix(nu, lam, k - 1);
        assert(diagram_cells(nu) == diagram_cells(d) + row_cells(k, nu.last() as int));
        lemma_outside_concat(diagram_cells(d), row_cells(k, nu.last() as int), lam);
        lemma_outside_row_span(k - 1, nu.last() as int, lam);
        assert(part_at(nu, k - 1) == nu.last());
    } else {
        assert(skew_cells(nu, lam) =~= Seq::<Cell>::empty());
    }
}

/// The letters of row `r + 1` of a filling of `nu / lam`, left to right.
pub open spec fn row_letters(f: Map<Cell, usize>, nu: Seq<usize>, lam: Seq<usize>, r: int) -> Seq<usize> {
    row_span(r, part_at(lam, r), part_at(nu, r)).map_values(|c: Cell| f[c])
}

/// The letters of the first `k` rows, row after row, each left to right.
pub open spec fn rows_word(f: Map<Cell, usize>, nu: Seq<usize>, lam: Seq<usize>, k: int) -> Seq<usize>
    decreases k,
{
    if k <= 0 {
        Seq::empty()
    } else {
        rows_word(f, nu, lam, k - 1) + row_letters(f, nu, lam, k - 1)
    }
}

/// The letters of the first `k` rows, row after row, each right to left.
pub open spec fn rows_reading(f: Map<Cell, usize>, nu: Seq<usize>, lam: Seq<usize>, k: int) -> Seq<usize>
    decreases k,
{
    if k <= 0 {
        Seq::empty()
    } else {
        rows_reading(f, nu, lam, k - 1) + row_letters(f, nu, lam, k - 1).reverse()
    }
}

proof fn lemma_rows_word_map(f: Map<Cell, usize>, nu: Seq<usize>, lam: Seq<usize>, k: int)
    requires
        includes(nu, lam),
    ensures
        skew_rows(nu, lam, k).map_values(|c: Cell| f[c]) == rows_word(f, nu, lam, k),
    decreases k,
{
    if k > 0 {
        lemma_rows_word_map(f, nu, lam, k - 1);
        assert(part_at(lam, k - 1) <= part_at(nu, k - 1));
        let a = skew_rows(nu, lam, k - 1);
        let b = row_span(k - 1, part_at(lam, k - 1), part_at(nu, k - 1));
        assert((a + b).map_values(|c: Cell| f[c]) =~= a.map_values(|c: Cell| f[c]) + b.map_values(|c: Cell| f[c]));
    }
}

proof fn lemma_filled_values_all(f: Map<Cell, usize>, cs: Seq<Cell>)
    requires
        forall|i: int| 0 <= i < cs.len() ==> f.dom().contains(#[trigger] cs[i]),
    ensures
        filled_values(f, cs) == cs.map_values(|c: Cell| f[c]),
    decreases cs.len(),
{
    if cs.len() > 0 {
        lemma_filled_values_all(f, cs.drop_last());
        assert(cs.map_values(|c: Cell| f[c]).drop_last() =~= cs.drop_last().map_values(|c: Cell| f[c]));
        assert(f.dom().contains(cs[cs.len() - 1]));
    }
}

/// The reading word of a filling of `nu / lam` that fills every cell: rows from top to
/// bottom, each right to left.
pub proof fn lemma_reading_rows(f: Map<Cell, usize>, nu: Seq<usize>, lam: Seq<usize>, k: int)
    requires
        is_partition(nu),
        nu.len() < usize::MAX,
        includes(nu, lam),
        forall|c: Cell| in_skew(nu, lam, c) ==> #[trigger] f.dom().contains(c),
    ensures
        filled_values(f, reading_order(skew_cells(nu, lam), k)) == rows_reading(f, nu, lam, k),
    decreases k,
{
    if k > 0 {
        lemma_reading_rows(f, nu, lam, k - 1);
        let cells = skew_cells(nu, lam);
        lemma_skew_row(nu, lam, k - 1);
        let span = row_span(k - 1, part_at(lam, k - 1), part_at(nu, k - 1));
        lemma_filled_values_concat(f, reading_order(cells, k - 1), in_row(cells, k).reverse());
        assert forall|i: int| 0 <= i < span.reverse().len() implies f.dom().contains(#[trigger] span.reverse()[i]) by {
            let c = span.reverse()[i];
            assert(in_skew(nu, lam, c));
        }
        lemma_filled_values_all(f, span.reverse());
        assert(span.reverse().map_values(|c: Cell| f[c]) =~= span.map_values(|c: Cell| f[c]).reverse());
    } else {
        assert(reading_order(skew_cells(nu, lam), k) == Seq::<Cell>::empty());
    }
}

// ----- letters of a row -----

/// How many letters of `s` are at most `v`.
pub open spec fn le_count(s: Seq<usize>, v: int) -> int
    decreases s.len(),
{
    if s.len() == 0 {
        0
    } else {
        le_count(s.drop_last(), v) + if s.last() <= v { 1int } else { 0 }
    }
}

/// The letters of `s` weakly increase.
pub open spec fn sorted_row(s: Seq<usize>) -> bool {
    forall|i: int, j: int| 0 <= i <= j < s.len() ==> #[trigger] s[i] <= #[trigger] s[j]
}

proof fn lemma_count_concat(a: Seq<usize>, b: Seq<usize>, v: int)
    ensures
        count_of(a + b, v) == count_of(a, v) + count_of(b, v),
    decreases b.len(),
{
    if b.len() == 0 {
        assert(a + b =~= a);
    } else {
        lemma_count_concat(a, b.drop_last(), v);
        assert((a + b).drop_last() =~= a + b.drop_last());
    }
}

proof fn lemma_count_reverse(s: Seq<usize>, v: int)
    ensures
        count_of(s.reverse(), v) == count_of(s, v),
    decreases s.len(),
{
    if s.len() > 0 {
        lemma_count_reverse(s.drop_last(), v);
        assert(s.reverse() =~= seq![s.last()] + s.drop_last().reverse());
        lemma_count_concat(seq![s.last()], s.drop_last().reverse(), v);
        assert(seq![s.last()].drop_last() =~= Seq::<usize>::empty());
        assert(count_of(Seq::<usize>::empty(), v) == 0);
        assert(seq![s.last()].last() == s.last());
    } else {
        assert(s.reverse() =~= s);
    }
}

proof fn lemma_le_count_step(s: Seq<usize>, v: int)
    ensures
        le_count(s, v) == le_count(s, v - 1) + count_of(s, v),
        0 <= le_count(s, v) <= s.len(),
        v <= 0 && (forall|i: int| 0 <= i < s.len() ==> 1 <= #[trigger] s[i]) ==> le_count(s, v) == 0,
    decreases s.len(),
{
    if s.len() > 0 {
        lemma_le_count_step(s.drop_last(), v);
        if v <= 0 && (forall|i: int| 0 <= i < s.len() ==> 1 <= #[trigger] s[i]) {
            assert forall|i: int| 0 <= i < s.drop_last().len() implies 1 <= #[trigger] s.drop_last()[i] by {
                assert(s.drop_last()[i] == s[i]);
            }
            assert(1 <= s[s.len() - 1]);
        }
    }
}

/// In a row whose letters weakly increase, the letters at most `v` come first.
proof fn lemma_sorted_le(s: Seq<usize>, v: int)
    requires
        sorted_row(s),
    ensures
        forall|t: int| 0 <= t < s.len() ==> (#[trigger] s[t] <= v <==> t < le_count(s, v)),
    decreases s.len(),
{
    if s.len() > 0 {
        let d = s.drop_last();
        assert(sorted_row(d)) by {
            assert forall|i: int, j: int| 0 <= i <= j < d.len() implies #[trigger] d[i] <= #[trigger] d[j] by {
                assert(d[i] == s[i] && d[j] == s[j]);
            }
        }
        lemma_sorted_le(d, v);
        lemma_le_count_step(d, v);
        let x = s.last();
        if x <= v && d.len() > 0 {
            assert(d[d.len() - 1] == s[d.len() - 1]);
            assert(s[d.len() - 1] <= x);
        }
        assert forall|t: int| 0 <= t < s.len() implies (#[trigger] s[t] <= v <==> t < le_count(s, v)) by {
            if t < d.len() {
                assert(s[t] == d[t]);
                if x > v {
                } else {
                    assert(s[t] <= x);
                }
            }
        }
    }
}

/// The letters of a row, read right to left, stopping before the first letter at most
/// `v`: all larger than `v`, and all the row's letters `v + 1`.
proof fn lemma_reversed_head(s: Seq<usize>, v: int)
    requires
        sorted_row(s),
    ensures
        ({
            let g = s.len() - le_count(s, v);
            &&& count_of(s.reverse().take(g), v) == 0
            &&& count_of(s.reverse().take(g), v + 1) == count_of(s, v + 1)
        }),
{
    lemma_sorted_le(s, v);
    lemma_le_count_step(s, v);
    let l = le_count(s, v);
    let g = s.len() - l;
    let head = s.reverse().take(g);
    let low = s.take(l);
    let high = s.skip(l);
    assert(head =~= high.reverse());
    assert(s =~= low + high);
    assert forall|i: int| 0 <= i < high.len() implies #[trigger] high[i] != v by {
        assert(high[i] == s[l + i]);
    }
    assert forall|i: int| 0 <= i < low.len() implies #[trigger] low[i] != v + 1 by {
        assert(low[i] == s[i]);
    }
    lemma_count_absent(high, v);
    lemma_count_absent(low, v + 1);
    lemma_count_reverse(high, v);
    lemma_count_reverse(high, v + 1);
    lemma_count_concat(low, high, v + 1);
}

// ----- from a filling to a strip sequence and back -----

/// The strip sequence a filling of `nu / lam` defines, as a word: for letter `k + 1` and
/// row `r`, one more than the number of cells of row `r + 1` holding `k + 1`.
pub open spec fn strip_of_filling(f: Map<Cell, usize>, nu: Seq<usize>, lam: Seq<usize>, m: int, n: int) -> Seq<usize> {
    Seq::new((m * n) as nat, |i: int| (count_of(row_letters(f, nu, lam, i % n), i / n + 1) + 1) as usize)
}

/// The letter that a strip sequence puts into column `col` of row `r + 1`: the first
/// letter from `v` on whose row length reaches that column.
pub open spec fn first_letter(lam: Seq<usize>, u: Seq<usize>, n: int, m: int, r: int, col: int, v: int) -> int
    decreases m - v,
{
    if v >= m || col <= row_before(lam, u, n, v, r) {
        v
    } else {
        first_letter(lam, u, n, m, r, col, v + 1)
    }
}

/// The filling that a strip sequence defines: each cell holds the first letter whose
/// row reaches it.
pub open spec fn filling_of_strip(lam: Seq<usize>, u: Seq<usize>, n: int, m: int) -> spec_fn(Cell) -> usize {
    |c: Cell| first_letter(lam, u, n, m, c.row - 1, c.col as int, 1) as usize
}

proof fn lemma_strip_of_filling_entry(f: Map<Cell, usize>, nu: Seq<usize>, lam: Seq<usize>, m: int, n: int, k: int, r: int)
    requires
        n >= 1,
        0 <= k < m,
        0 <= r < n,
        forall|r2: int, v: int| #[trigger] count_of(row_letters(f, nu, lam, r2), v) + 1 <= usize::MAX,
    ensures
        strip_entry(strip_of_filling(f, nu, lam, m, n), n, k, r) == count_of(row_letters(f, nu, lam, r), k + 1),
{
    let i = k * n + r;
    assert(k * n + r < m * n) by (nonlinear_arith)
        requires
            0 <= k < m,
            0 <= r < n,
    ;
    assert(0 <= k * n) by (nonlinear_arith)
        requires
            0 <= k,
            n >= 1,
    ;
    lemma_fundamental_div_mod_converse_div(i, n, k, r);
    lemma_fundamental_div_mod_converse_mod(i, n, k, r);
}

/// The rows a filling's strip sequence builds: row `r` holds its cells of `lam` and its
/// letters up to `k`.
proof fn lemma_rows_of_filling(f: Map<Cell, usize>, nu: Seq<usize>, lam: Seq<usize>, m: int, n: int, k: int, r: int)
    requires
        n >= 1,
        0 <= k <= m,
        0 <= r < n,
        forall|r2: int, v: int| #[trigger] count_of(row_letters(f, nu, lam, r2), v) + 1 <= usize::MAX,
        forall|t: int| 0 <= t < row_letters(f, nu, lam, r).len() ==> 1 <= #[trigger] row_letters(f, nu, lam, r)[t],
    ensures
        row_before(lam, strip_of_filling(f, nu, lam, m, n), n, k, r) == part_at(lam, r) + le_count(
            row_letters(f, nu, lam, r),
            k,
        ),
    decreases k,
{
    let s = row_letters(f, nu, lam, r);
    if k == 0 {
        lemma_le_count_step(s, 0);
    } else {
        lemma_rows_of_filling(f, nu, lam, m, n, k - 1, r);
        lemma_strip_of_filling_entry(f, nu, lam, m, n, k - 1, r);
        lemma_le_count_step(s, k);
    }
}

/// Row lengths of a strip sequence grow with the letters.
proof fn lemma_rows_grow(lam: Seq<usize>, u: Seq<usize>, n: int, m: int, r: int, v: int, w: int)
    requires
        n >= 1,
        0 <= r < n,
        0 <= v <= w <= m,
        u.len() == m * n,
        forall|i: int| 0 <= i < u.len() ==> 1 <= #[trigger] u[i],
    ensures
        row_before(lam, u, n, v, r) <= row_before(lam, u, n, w, r),
    decreases w - v,
{
    if v < w {
        lemma_rows_grow(lam, u, n, m, r, v, w - 1);
        assert((w - 1) * n + r < m * n) by (nonlinear_arith)
            requires
                0 <= w - 1 < m,
                0 <= r < n,
        ;
        assert(0 <= (w - 1) * n) by (nonlinear_arith)
            requires
                0 <= w - 1,
                n >= 1,
        ;
        assert(1 <= u[(w - 1) * n + r]);
    }
}

/// The letter a strip sequence puts into a cell is at most `v` exactly when the row
/// length after letter `v` reaches the cell.
proof fn lemma_first_letter(lam: Seq<usize>, u: Seq<usize>, n: int, m: int, r: int, col: int, v0: int, v: int)
    requires
        n >= 1,
        0 <= r < n,
        1 <= v0 <= v < m,
        u.len() == m * n,
        forall|i: int| 0 <= i < u.len() ==> 1 <= #[trigger] u[i],
        v0 > 1 ==> col > row_before(lam, u, n, v0 - 1, r),
    ensures
        first_letter(lam, u, n, m, r, col, v0) <= v <==> col <= row_before(lam, u, n, v, r),
    decreases m - v0,
{
    if col <= row_before(lam, u, n, v0, r) {
        lemma_rows_grow(lam, u, n, m, r, v0, v);
    } else if v0 < v {
        lemma_first_letter(lam, u, n, m, r, col, v0 + 1, v);
    } else {
        lemma_first_letter_low(lam, u, n, m, r, col, v0 + 1);
    }
}

proof fn lemma_first_letter_low(lam: Seq<usize>, u: Seq<usize>, n: int, m: int, r: int, col: int, v0: int)
    ensures
        first_letter(lam, u, n, m, r, col, v0) >= v0,
        v0 <= m ==> first_letter(lam, u, n, m, r, col, v0) <= m,
    decreases m - v0,
{
    if !(v0 >= m || col <= row_before(lam, u, n, v0, r)) {
        lemma_first_letter_low(lam, u, n, m, r, col, v0 + 1);
    }
}

// ----- the lattice condition, row by row -----

proof fn lemma_reading_counts(f: Map<Cell, usize>, nu: Seq<usize>, lam: Seq<usize>, i: int, v: int)
    ensures
        count_of(rows_reading(f, nu, lam, i), v) == count_of(rows_word(f, nu, lam, i), v),
        rows_reading(f, nu, lam, i).len() == rows_word(f, nu, lam, i).len(),
    decreases i,
{
    if i > 0 {
        lemma_reading_counts(f, nu, lam, i - 1, v);
        let row = row_letters(f, nu, lam, i - 1);
        lemma_count_concat(rows_reading(f, nu, lam, i - 1), row.reverse(), v);
        lemma_count_concat(rows_word(f, nu, lam, i - 1), row, v);
        lemma_count_reverse(row, v);
    }
}

proof fn lemma_reading_prefix(f: Map<Cell, usize>, nu: Seq<usize>, lam: Seq<usize>, i: int, k: int)
    requires
        0 <= i <= k,
    ensures
        rows_reading(f, nu, lam, k).take(rows_reading(f, nu, lam, i).len() as int) == rows_reading(f, nu, lam, i),
        rows_reading(f, nu, lam, i).len() <= rows_reading(f, nu, lam, k).len(),
    decreases k,
{
    if k > i {
        lemma_reading_prefix(f, nu, lam, i, k - 1);
        let a = rows_reading(f, nu, lam, k - 1);
        let b = row_letters(f, nu, lam, k - 1).reverse();
        assert((a + b).take(rows_reading(f, nu, lam, i).len() as int) =~= a.take(rows_reading(f, nu, lam, i).len() as int));
    } else {
        assert(rows_reading(f, nu, lam, k).take(rows_reading(f, nu, lam, k).len() as int) =~= rows_reading(f, nu, lam, k));
    }
}

proof fn lemma_count_take_le(s: Seq<usize>, p: int, v: int)
    requires
        0 <= p <= s.len(),
    ensures
        count_of(s.take(p), v) <= count_of(s, v),
{
    assert(s =~= s.take(p) + s.skip(p));
    lemma_count_concat(s.take(p), s.skip(p), v);
}

proof fn lemma_rows_word_grow(f: Map<Cell, usize>, nu: Seq<usize>, lam: Seq<usize>, i: int, k: int, v: int)
    requires
        0 <= i <= k,
    ensures
        count_of(rows_word(f, nu, lam, i), v) <= count_of(rows_word(f, nu, lam, k), v),
    decreases k,
{
    if k > i {
        lemma_rows_word_grow(f, nu, lam, i, k - 1, v);
        lemma_count_concat(rows_word(f, nu, lam, k - 1), row_letters(f, nu, lam, k - 1), v);
    }
}

/// A reading word read row by row is a lattice word when, for every row, the letters
/// `k + 1` up to that row never outnumber the letters `k` in the rows above it.
proof fn lemma_lattice_from_rows(f: Map<Cell, usize>, nu: Seq<usize>, lam: Seq<usize>, r: int)
    requires
        0 <= r,
        forall|k: int, i: int|
            1 <= k && 1 <= i <= r ==> #[trigger] count_of(rows_word(f, nu, lam, i), k + 1) <= count_of(
                rows_word(f, nu, lam, i - 1),
                k,
            ),
    ensures
        forall|p: int, k: int|
            0 <= p <= rows_reading(f, nu, lam, r).len() && 1 <= k ==> #[trigger] count_of(
                rows_reading(f, nu, lam, r).take(p),
                k + 1,
            ) <= count_of(rows_reading(f, nu, lam, r).take(p), k),
    decreases r,
{
    if r > 0 {
        lemma_lattice_from_rows(f, nu, lam, r - 1);
        let a = rows_reading(f, nu, lam, r - 1);
        let b = row_letters(f, nu, lam, r - 1).reverse();
        let all = rows_reading(f, nu, lam, r);
        assert(all == a + b);
        assert forall|p: int, k: int| 0 <= p <= all.len() && 1 <= k implies #[trigger] count_of(all.take(p), k + 1)
            <= count_of(all.take(p), k) by {
            if p <= a.len() {
                assert(all.take(p) =~= a.take(p));
            } else {
                let q = p - a.len();
                assert(all.take(p) =~= a + b.take(q));
                lemma_count_concat(a, b.take(q), k + 1);
                lemma_count_concat(a, b.take(q), k);
                lemma_count_take_le(b, q, k + 1);
                lemma_count_concat(a, b, k + 1);
                lemma_reading_counts(f, nu, lam, r, k + 1);
                lemma_reading_counts(f, nu, lam, r - 1, k);
                assert(count_of(rows_word(f, nu, lam, r), k + 1) <= count_of(rows_word(f, nu, lam, r - 1), k));
            }
        }
    }
}

/// From a lattice reading word, with each row's letters weakly increasing: for every row,
/// the letters `k + 1` up to it never outnumber the letters `k` in the rows above it.
proof fn lemma_rows_from_lattice(f: Map<Cell, usize>, nu: Seq<usize>, lam: Seq<usize>, r: int, i: int, j: int)
    requires
        1 <= i <= r,
        1 <= j,
        sorted_row(row_letters(f, nu, lam, i - 1)),
        forall|p: int, k: int|
            1 <= p <= rows_reading(f, nu, lam, r).len() && 1 <= k ==> #[trigger] count_of(
                rows_reading(f, nu, lam, r).take(p),
                k,
            ) >= #[trigger] count_of(rows_reading(f, nu, lam, r).take(p), k + 1),
    ensures
        count_of(rows_word(f, nu, lam, i), j + 1) <= count_of(rows_word(f, nu, lam, i - 1), j),
{
    let s = row_letters(f, nu, lam, i - 1);
    let a = rows_reading(f, nu, lam, i - 1);
    let rw = rows_reading(f, nu, lam, r);
    lemma_le_count_step(s, j);
    let g = s.len() - le_count(s, j);
    let p = a.len() + g;
    lemma_reading_prefix(f, nu, lam, i, r);
    let full = rows_reading(f, nu, lam, i);
    assert(full == a + s.reverse());
    assert(rw.take(p) =~= a + s.reverse().take(g)) by {
        assert(rw.take(full.len() as int) == full);
        assert forall|x: int| 0 <= x < p implies rw.take(p)[x] == (a + s.reverse().take(g))[x] by {
            assert(rw.take(full.len() as int)[x] == full[x]);
        }
    }
    lemma_reversed_head(s, j);
    lemma_count_concat(a, s.reverse().take(g), j);
    lemma_count_concat(a, s.reverse().take(g), j + 1);
    lemma_reading_counts(f, nu, lam, i - 1, j);
    lemma_reading_counts(f, nu, lam, i - 1, j + 1);
    lemma_count_concat(rows_word(f, nu, lam, i - 1), s, j + 1);
    if p >= 1 {
        assert(count_of(rw.take(p), j) >= count_of(rw.take(p), j + 1));
    } else {
        assert(a.len() == 0 && g == 0);
        assert(a =~= Seq::<usize>::empty());
        assert(s.reverse().take(g) =~= Seq::<usize>::empty());
        lemma_count_absent(Seq::<usize>::empty(), j + 1);
        lemma_count_absent(Seq::<usize>::empty(), j);
    }
}

// ----- a Littlewood-Richardson filling gives a strip sequence -----

/// A filling of `nu / lam` with letters `1..=m` in every cell.
pub open spec fn fills(f: Map<Cell, usize>, nu: Seq<usize>, lam: Seq<usize>, m: int) -> bool {
    forall|c: Cell| in_skew(nu, lam, c) ==> f.dom().contains(c) && 1 <= #[trigger] f[c] <= m
}

proof fn lemma_row_cell(nu: Seq<usize>, lam: Seq<usize>, r: int, col: int)
    requires
        is_partition(nu),
        nu.len() < usize::MAX,
        includes(nu, lam),
        0 <= r,
        part_at(lam, r) < col <= part_at(nu, r),
    ensures
        in_skew(nu, lam, Cell { row: (r + 1) as usize, col: col as usize }),
        r < nu.len(),
{
}

proof fn lemma_rows_sorted(f: Map<Cell, usize>, nu: Seq<usize>, lam: Seq<usize>, r: int)
    requires
        is_partition(nu),
        nu.len() < usize::MAX,
        includes(nu, lam),
        0 <= r,
        rows_weak(nu, lam, f),
    ensures
        sorted_row(row_letters(f, nu, lam, r)),
{
    let s = row_letters(f, nu, lam, r);
    let a = part_at(lam, r);
    assert forall|t: int| 1 <= t < s.len() implies s[t - 1] <= #[trigger] s[t] by {
        let c = Cell { row: (r + 1) as usize, col: (a + 1 + t) as usize };
        lemma_row_cell(nu, lam, r, a + 1 + t);
        lemma_row_cell(nu, lam, r, a + t);
        assert(left_of(c) == Cell { row: (r + 1) as usize, col: (a + t) as usize });
    }
    assert forall|i: int, j: int| 0 <= i <= j < s.len() implies #[trigger] s[i] <= #[trigger] s[j] by {
        lemma_sorted_steps(s, i, j);
    }
}

proof fn lemma_sorted_steps(s: Seq<usize>, i: int, j: int)
    requires
        0 <= i <= j < s.len(),
        forall|t: int| 1 <= t < s.len() ==> s[t - 1] <= #[trigger] s[t],
    ensures
        s[i] <= s[j],
    decreases j - i,
{
    if i < j {
        lemma_sorted_steps(s, i, j - 1);
    }
}

/// In a filling whose columns strictly increase, column 1 below `lam` has at most `m`
/// rows.
proof fn lemma_lr_height(f: Map<Cell, usize>, nu: Seq<usize>, lam: Seq<usize>, m: int)
    requires
        is_partition(nu),
        is_partition(lam),
        includes(nu, lam),
        fills(f, nu, lam, m),
        cols_strict(nu, lam, f),
        nu.len() < usize::MAX,
        m >= 0,
    ensures
        nu.len() <= lam.len() + m,
{
    if nu.len() > lam.len() {
        let j = nu.len() - lam.len();
        lemma_column_letter(f, nu, lam, m, j);
        let c = Cell { row: (lam.len() + j) as usize, col: 1 };
        assert(in_skew(nu, lam, c));
        assert(f.dom().contains(c) && 1 <= f[c] <= m);
    }
}

proof fn lemma_column_letter(f: Map<Cell, usize>, nu: Seq<usize>, lam: Seq<usize>, m: int, j: int)
    requires
        is_partition(nu),
        is_partition(lam),
        includes(nu, lam),
        fills(f, nu, lam, m),
        cols_strict(nu, lam, f),
        nu.len() < usize::MAX,
        1 <= j <= nu.len() - lam.len(),
    ensures
        in_skew(nu, lam, Cell { row: (lam.len() + j) as usize, col: 1 }),
        f[Cell { row: (lam.len() + j) as usize, col: 1 }] >= j,
    decreases j,
{
    let c = Cell { row: (lam.len() + j) as usize, col: 1 };
    assert(nu[lam.len() + j - 1] > 0);
    if j > 1 {
        lemma_column_letter(f, nu, lam, m, j - 1);
        assert(above(c) == Cell { row: (lam.len() + j - 1) as usize, col: 1 });
        assert(in_skew(nu, lam, c));
    }
}

/// In a filling whose rows weakly and columns strictly increase, the boxes up to letter
/// `k + 1` in a row never reach past the boxes up to letter `k` in the row above: each
/// letter adds a horizontal strip.
proof fn lemma_lr_strips(f: Map<Cell, usize>, nu: Seq<usize>, lam: Seq<usize>, m: int, k: int, i: int)
    requires
        is_partition(nu),
        nu.len() < usize::MAX,
        is_partition(lam),
        includes(nu, lam),
        rows_weak(nu, lam, f),
        cols_strict(nu, lam, f),
        0 <= k,
        1 <= i,
    ensures
        part_at(lam, i) + le_count(row_letters(f, nu, lam, i), k + 1) <= part_at(lam, i - 1) + le_count(
            row_letters(f, nu, lam, i - 1),
            k,
        ),
{
    let s = row_letters(f, nu, lam, i);
    let s0 = row_letters(f, nu, lam, i - 1);
    let a = part_at(lam, i);
    let a0 = part_at(lam, i - 1);
    lemma_le_count_step(s, k + 1);
    lemma_le_count_step(s0, k);
    assert(a <= a0) by {
        if i < lam.len() {
            assert(lam[i] <= lam[i - 1]);
        }
    }
    assert(part_at(nu, i) <= part_at(nu, i - 1)) by {
        if i < nu.len() {
            assert(nu[i] <= nu[i - 1]);
        }
    }
    let x = a0 + le_count(s0, k);
    if x < a + le_count(s, k + 1) {
        lemma_rows_sorted(f, nu, lam, i);
        lemma_rows_sorted(f, nu, lam, i - 1);
        lemma_sorted_le(s, k + 1);
        lemma_sorted_le(s0, k);
        lemma_strip_witness(f, nu, lam, i, x + 1);
    }
}

proof fn lemma_strip_witness(f: Map<Cell, usize>, nu: Seq<usize>, lam: Seq<usize>, i: int, col: int)
    requires
        is_partition(nu),
        nu.len() < usize::MAX,
        includes(nu, lam),
        cols_strict(nu, lam, f),
        1 <= i,
        part_at(lam, i) < col <= part_at(nu, i),
        part_at(lam, i - 1) < col <= part_at(nu, i - 1),
    ensures
        row_letters(f, nu, lam, i - 1)[col - part_at(lam, i - 1) - 1] < row_letters(f, nu, lam, i)[col
            - part_at(lam, i) - 1],
{
    let c = Cell { row: (i + 1) as usize, col: col as usize };
    lemma_row_cell(nu, lam, i, col);
    lemma_row_cell(nu, lam, i - 1, col);
    assert(row_letters(f, nu, lam, i)[col - part_at(lam, i) - 1] == f[c]);
    assert(above(c) == Cell { row: i as usize, col: col as usize });
    assert(row_letters(f, nu, lam, i - 1)[col - part_at(lam, i - 1) - 1] == f[above(c)]);
    assert(f[above(c)] < f[c]);
}

// ----- rows of a filling and the word of its cells -----

proof fn lemma_le_count_threshold(s: Seq<usize>, v: int, t0: int)
    requires
        0 <= t0 <= s.len(),
        forall|t: int| 0 <= t < s.len() ==> (#[trigger] s[t] <= v <==> t < t0),
    ensures
        le_count(s, v) == t0,
    decreases s.len(),
{
    if s.len() > 0 {
        let d = s.drop_last();
        if t0 == s.len() {
            lemma_le_count_threshold(d, v, t0 - 1);
        } else {
            lemma_le_count_threshold(d, v, t0);
        }
        assert(s[s.len() - 1] == s.last());
    }
}

proof fn lemma_rows_word_tail(f: Map<Cell, usize>, nu: Seq<usize>, lam: Seq<usize>, i: int)
    requires
        includes(nu, lam),
        nu.len() <= i,
    ensures
        rows_word(f, nu, lam, i) == rows_word(f, nu, lam, nu.len() as int),
    decreases i,
{
    if i > nu.len() {
        lemma_rows_word_tail(f, nu, lam, i - 1);
        assert(part_at(lam, i - 1) <= part_at(nu, i - 1));
        assert(row_letters(f, nu, lam, i - 1) =~= Seq::<usize>::empty());
        assert(rows_word(f, nu, lam, i) =~= rows_word(f, nu, lam, i - 1));
    }
}

/// The entries of a strip sequence that count a filling's letters add up to the filling's
/// letters.
proof fn lemma_letters_of_rows(f: Map<Cell, usize>, nu: Seq<usize>, lam: Seq<usize>, u: Seq<usize>, n: int, k: int, i: int)
    requires
        0 <= i <= n,
        forall|r: int| 0 <= r < i ==> #[trigger] strip_entry(u, n, k, r) == count_of(row_letters(f, nu, lam, r), k + 1),
    ensures
        letter_rows(u, n, k, i) == count_of(rows_word(f, nu, lam, i), k + 1),
    decreases i,
{
    if i > 0 {
        lemma_letters_of_rows(f, nu, lam, u, n, k, i - 1);
        lemma_count_concat(rows_word(f, nu, lam, i - 1), row_letters(f, nu, lam, i - 1), k + 1);
    }
}

/// The word of a filling of `nu / lam`, cell by cell, is its rows one after the other.
proof fn lemma_word_rows(w: Seq<usize>, nu: Seq<usize>, lam: Seq<usize>)
    requires
        is_partition(nu),
        nu.len() < usize::MAX,
        includes(nu, lam),
        w.len() == skew_cells(nu, lam).len(),
    ensures
        w == rows_word(pairs_map(skew_cells(nu, lam), w), nu, lam, nu.len() as int),
        forall|c: Cell| in_skew(nu, lam, c) ==> #[trigger] pairs_map(skew_cells(nu, lam), w).dom().contains(c),
{
    let cells = skew_cells(nu, lam);
    let f = pairs_map(cells, w);
    lemma_skew_facts(nu, lam);
    lemma_pairs_map(cells, w);
    lemma_skew_cells_rows(nu, lam);
    lemma_rows_word_map(f, nu, lam, nu.len() as int);
    assert(w =~= cells.map_values(|c: Cell| f[c]));
    assert forall|c: Cell| in_skew(nu, lam, c) implies #[trigger] f.dom().contains(c) by {
        let k = choose|k: int| 0 <= k < cells.len() && #[trigger] cells[k] == c;
    }
}

/// A filling of `nu / lam` that is a Littlewood-Richardson tableau of content `mu`, stated
/// row by row.
pub open spec fn lr_filling(f: Map<Cell, usize>, nu: Seq<usize>, lam: Seq<usize>, mu: Seq<usize>) -> bool {
    &&& fills(f, nu, lam, mu.len() as int)
    &&& rows_weak(nu, lam, f)
    &&& cols_strict(nu, lam, f)
    &&& forall|v: int| 1 <= v <= mu.len() ==> #[trigger] count_of(rows_word(f, nu, lam, nu.len() as int), v) == mu[v - 1]
    &&& is_lattice(rows_reading(f, nu, lam, nu.len() as int))
}

/// A word of letters `1..=m` on the cells of `nu / lam` is a Littlewood-Richardson
/// tableau exactly when its filling is one, row by row.
proof fn lemma_lr_word_filling(nu: Seq<usize>, lam: Seq<usize>, mu: Seq<usize>, w: Seq<usize>)
    requires
        is_partition(nu),
        nu.len() < usize::MAX,
        includes(nu, lam),
        w.len() == skew_cells(nu, lam).len(),
        forall|i: int| 0 <= i < w.len() ==> 1 <= #[trigger] w[i] <= mu.len(),
    ensures
        lr_word(nu, lam, mu)(w) <==> lr_filling(pairs_map(skew_cells(nu, lam), w), nu, lam, mu),
{
    let cells = skew_cells(nu, lam);
    let f = pairs_map(cells, w);
    lemma_word_rows(w, nu, lam);
    lemma_skew_facts(nu, lam);
    lemma_pairs_map(cells, w);
    assert(fills(f, nu, lam, mu.len() as int)) by {
        assert forall|c: Cell| in_skew(nu, lam, c) implies f.dom().contains(c) && 1 <= #[trigger] f[c] <= mu.len() by {
            let k = choose|k: int| 0 <= k < cells.len() && #[trigger] cells[k] == c;
            assert(f[cells[k]] == w[k]);
        }
    }
    lemma_reading_rows(f, nu, lam, nu.len() as int);
    assert(reading_word_of(cells, nu.len() as int, f) == rows_reading(f, nu, lam, nu.len() as int));
}

// ----- a tableau's strip sequence -----

proof fn lemma_count_le_len(s: Seq<usize>, v: int)
    ensures
        count_of(s, v) <= s.len(),
    decreases s.len(),
{
    if s.len() > 0 {
        lemma_count_le_len(s.drop_last(), v);
    }
}

/// `x` is at most `v`.
spec fn at_most(x: int, v: int) -> bool {
    x <= v
}

proof fn lemma_same_letter(x: int, y: int, m: int)
    requires
        1 <= x <= m,
        1 <= y <= m,
        forall|v: int| 1 <= v < m ==> (#[trigger] at_most(x, v) <==> at_most(y, v)),
    ensures
        x == y,
{
    if x < y {
        assert(at_most(x, x) <==> at_most(y, x));
    } else if y < x {
        assert(at_most(x, y) <==> at_most(y, y));
    }
}

/// Facts about the rows of a Littlewood-Richardson filling.
proof fn lemma_lr_rows(f: Map<Cell, usize>, nu: Seq<usize>, lam: Seq<usize>, mu: Seq<usize>)
    requires
        is_partition(nu),
        is_partition(lam),
        nu.len() < usize::MAX,
        includes(nu, lam),
        seq_sum(nu) < usize::MAX,
        lr_filling(f, nu, lam, mu),
    ensures
        nu.len() <= lam.len() + mu.len(),
        forall|r: int| 0 <= r ==> sorted_row(#[trigger] row_letters(f, nu, lam, r)),
        forall|r: int, t: int|
            0 <= r && 0 <= t < row_letters(f, nu, lam, r).len() ==> 1 <= #[trigger] row_letters(f, nu, lam, r)[t]
                <= mu.len(),
        forall|r2: int, v: int| #[trigger] count_of(row_letters(f, nu, lam, r2), v) + 1 <= usize::MAX,
{
    lemma_lr_height(f, nu, lam, mu.len() as int);
    assert forall|r: int| 0 <= r implies sorted_row(#[trigger] row_letters(f, nu, lam, r)) by {
        lemma_rows_sorted(f, nu, lam, r);
    }
    assert forall|r: int, t: int| 0 <= r && 0 <= t < row_letters(f, nu, lam, r).len() implies 1
        <= #[trigger] row_letters(f, nu, lam, r)[t] <= mu.len() by {
        lemma_row_cell(nu, lam, r, part_at(lam, r) + 1 + t);
    }
    assert forall|r2: int, v: int| #[trigger] count_of(row_letters(f, nu, lam, r2), v) + 1 <= usize::MAX by {
        lemma_count_le_len(row_letters(f, nu, lam, r2), v);
        if 0 <= r2 < nu.len() {
            lemma_part_le_sum(nu, r2);
        }
        lemma_seq_sum_nonneg(lam);
    }
}

/// The strip sequence of a Littlewood-Richardson filling satisfies the lattice condition.
proof fn lemma_filling_lattice(f: Map<Cell, usize>, nu: Seq<usize>, lam: Seq<usize>, mu: Seq<usize>, n: int, j: int, i: int)
    requires
        is_partition(nu),
        is_partition(lam),
        nu.len() < usize::MAX,
        includes(nu, lam),
        seq_sum(nu) < usize::MAX,
        lr_filling(f, nu, lam, mu),
        n == lam.len() + mu.len(),
        1 <= j < mu.len(),
        1 <= i <= n,
    ensures
        count_of(rows_word(f, nu, lam, i), j + 1) <= count_of(rows_word(f, nu, lam, i - 1), j),
{
    let r = nu.len() as int;
    lemma_lr_rows(f, nu, lam, mu);
    let rw = rows_reading(f, nu, lam, r);
    lemma_lattice_prefixes(rw);
    if i <= r {
        lemma_rows_from_lattice(f, nu, lam, r, i, j);
    } else {
        lemma_rows_word_tail(f, nu, lam, i);
        if r >= 1 {
            lemma_rows_from_lattice(f, nu, lam, r, r, j);
            lemma_rows_word_grow(f, nu, lam, r - 1, i - 1, j);
        } else {
            assert(rows_word(f, nu, lam, r) =~= Seq::<usize>::empty());
            lemma_count_absent(Seq::<usize>::empty(), j + 1);
        }
    }
}

/// Reading the boxes of each letter row by row turns a Littlewood-Richardson filling
/// into a strip word, from whose rows the filling's letters can be read back.
#[verifier::spinoff_prover]
#[verifier::rlimit(60)]
proof fn lemma_filling_strip(f: Map<Cell, usize>, nu: Seq<usize>, lam: Seq<usize>, mu: Seq<usize>)
    requires
        is_partition(nu),
        is_partition(lam),
        is_partition(mu),
        mu.len() >= 1,
        nu.len() < usize::MAX,
        includes(nu, lam),
        seq_sum(nu) < usize::MAX,
        seq_sum(mu) < usize::MAX,
        lr_filling(f, nu, lam, mu),
    ensures
        ({
            let n = (lam.len() + mu.len()) as int;
            let m = mu.len() as int;
            let u = strip_of_filling(f, nu, lam, m, n);
            &&& u.len() == m * n
            &&& forall|i: int| 0 <= i < u.len() ==> 1 <= #[trigger] u[i] <= seq_sum(mu) + 1
            &&& strip_word(lam, mu, nu, n)(u)
            &&& forall|c: Cell| in_skew(nu, lam, c) ==> first_letter(lam, u, n, m, c.row - 1, c.col as int, 1) == f[c]
        }),
{
    let n = (lam.len() + mu.len()) as int;
    let m = mu.len() as int;
    let r0 = nu.len() as int;
    let u = strip_of_filling(f, nu, lam, m, n);
    lemma_lr_rows(f, nu, lam, mu);
    lemma_rows_word_tail(f, nu, lam, n);
    // entries
    assert forall|k: int, r: int| 0 <= k < m && 0 <= r < n implies #[trigger] strip_entry(u, n, k, r) == count_of(
        row_letters(f, nu, lam, r),
        k + 1,
    ) by {
        lemma_strip_of_filling_entry(f, nu, lam, m, n, k, r);
    }
    // each letter's boxes
    assert forall|k: int| 0 <= k < m implies #[trigger] letter_rows(u, n, k, n) == mu[k] by {
        lemma_letters_of_rows(f, nu, lam, u, n, k, n);
    }
    // entries at least 1 and at most |mu| + 1
    assert forall|i: int| 0 <= i < u.len() implies 1 <= #[trigger] u[i] <= seq_sum(mu) + 1 by {
        lemma_fundamental_div_mod(i, n);
        lemma_mod_pos_bound(i, n);
        lemma_div_pos_is_pos(i, n);
        let k = i / n;
        let r = i % n;
        assert(k < m) by (nonlinear_arith)
            requires
                i == n * k + r,
                0 <= r < n,
                i < m * n,
                n >= 1,
        ;
        lemma_count_concat(rows_word(f, nu, lam, r), row_letters(f, nu, lam, r), k + 1);
        lemma_rows_word_grow(f, nu, lam, r + 1, n, k + 1);
        lemma_part_le_sum(mu, k);
    }
    // horizontal strips
    assert forall|k: int, i: int|
        0 <= k < m && 1 <= i < n implies row_before(lam, u, n, k, i) + #[trigger] strip_entry(u, n, k, i)
            <= row_before(lam, u, n, k, i - 1) by {
        lemma_rows_of_filling(f, nu, lam, m, n, k + 1, i);
        lemma_rows_of_filling(f, nu, lam, m, n, k, i - 1);
        lemma_lr_strips(f, nu, lam, m, k, i);
    }
    // the lattice condition
    assert forall|j: int, i: int|
        1 <= j < m && 1 <= i <= n implies #[trigger] letter_rows(u, n, j, i) <= letter_rows(u, n, j - 1, i - 1) by {
        lemma_letters_of_rows(f, nu, lam, u, n, j, i);
        lemma_letters_of_rows(f, nu, lam, u, n, j - 1, i - 1);
        lemma_filling_lattice(f, nu, lam, mu, n, j, i);
    }
    // the rows at the end
    assert(rows_after(lam, u, n, m) =~= padded(nu, n as nat)) by {
        assert forall|r: int| 0 <= r < n implies #[trigger] rows_after(lam, u, n, m)[r] == padded(nu, n as nat)[r] by {
            lemma_rows_of_filling(f, nu, lam, m, n, m, r);
            let s = row_letters(f, nu, lam, r);
            lemma_le_count_threshold(s, m, s.len() as int);
        }
    }
    lemma_trim_padded(nu, n as nat);
    // the letters back
    assert forall|c: Cell| in_skew(nu, lam, c) implies first_letter(lam, u, n, m, c.row - 1, c.col as int, 1) == f[c] by {
        let r = c.row - 1;
        let s = row_letters(f, nu, lam, r);
        let t = c.col - part_at(lam, r) - 1;
        assert(s[t] == f[c]);
        lemma_first_letter_low(lam, u, n, m, r, c.col as int, 1);
        lemma_sorted_le(s, 0);
        assert forall|v: int| 1 <= v < m implies (#[trigger] at_most(first_letter(lam, u, n, m, r, c.col as int, 1), v)
            <==> at_most(f[c] as int, v)) by {
            lemma_first_letter(lam, u, n, m, r, c.col as int, 1, v);
            lemma_rows_of_filling(f, nu, lam, m, n, v, r);
            lemma_sorted_le(s, v);
        }
        lemma_same_letter(first_letter(lam, u, n, m, r, c.col as int, 1), f[c] as int, m);
    }
}

// ----- a strip sequence's tableau -----

/// The word that a strip sequence writes into the cells of `nu / lam`.
pub open spec fn word_of_strip(nu: Seq<usize>, lam: Seq<usize>, u: Seq<usize>, n: int, m: int) -> Seq<usize> {
    skew_cells(nu, lam).map_values(filling_of_strip(lam, u, n, m))
}

proof fn lemma_strip_rows_bound(lam: Seq<usize>, mu: Seq<usize>, u: Seq<usize>, n: int, k: int, r: int)
    requires
        n >= 1,
        0 <= k <= mu.len(),
        0 <= r < n,
        u.len() == mu.len() * n,
        forall|i: int| 0 <= i < u.len() ==> 1 <= #[trigger] u[i],
        forall|j: int| 0 <= j < mu.len() ==> #[trigger] letter_rows(u, n, j, n) == mu[j],
    ensures
        part_at(lam, r) <= row_before(lam, u, n, k, r) <= part_at(lam, r) + prefix_total(mu, k),
    decreases k,
{
    if k == 0 {
        assert(mu.take(0) =~= Seq::<usize>::empty());
    } else {
        lemma_strip_rows_bound(lam, mu, u, n, k - 1, r);
        assert((k - 1) * n + n <= mu.len() * n) by (nonlinear_arith)
            requires
                k <= mu.len(),
                n >= 1,
        ;
        lemma_letter_rows_mono(u, n, k - 1, 0, r);
        lemma_letter_rows_mono(u, n, k - 1, r, n);
        assert(letter_rows(u, n, k - 1, n) == mu[k - 1]);
        lemma_prefix_step(mu, k - 1);
        assert(1 <= u[(k - 1) * n + r]) by {
            assert((k - 1) * n + r < mu.len() * n) by (nonlinear_arith)
                requires
                    k <= mu.len(),
                    0 <= r < n,
            ;
            assert(0 <= (k - 1) * n) by (nonlinear_arith)
                requires
                    k >= 1,
                    n >= 1,
            ;
        }
    }
}

/// A strip word's rows at the end are the rows of `nu`, and `nu` has at most `n` rows.
proof fn lemma_strip_ends(lam: Seq<usize>, mu: Seq<usize>, nu: Seq<usize>, u: Seq<usize>, n: int)
    requires
        is_partition(nu),
        n >= 1,
        u.len() == mu.len() * n,
        forall|i: int| 0 <= i < u.len() ==> 1 <= #[trigger] u[i],
        seq_sum(lam) + seq_sum(mu) <= usize::MAX,
        strip_word(lam, mu, nu, n)(u),
    ensures
        nu.len() <= n,
        forall|r: int| 0 <= r < n ==> #[trigger] row_before(lam, u, n, mu.len() as int, r) == part_at(nu, r),
{
    let m = mu.len() as int;
    let ra = rows_after(lam, u, n, m);
    lemma_trim_parts(ra);
    assert(trim_zeros(ra) == nu);
    assert forall|r: int| 0 <= r < n implies #[trigger] row_before(lam, u, n, m, r) == part_at(nu, r) by {
        lemma_strip_rows_bound(lam, mu, u, n, m, r);
        lemma_prefix_mono(mu, m, m);
        assert(mu.take(m) =~= mu);
        if r < lam.len() {
            lemma_part_le_sum(lam, r);
        }
        lemma_seq_sum_nonneg(lam);
        assert(part_at(ra, r) == part_at(trim_zeros(ra), r));
    }
    if nu.len() > n {
        assert(part_at(ra, n) == part_at(trim_zeros(ra), n));
        assert(nu[n] > 0);
    }
}

/// The letters a strip word puts into a row: how many are at most `v`.
proof fn lemma_strip_row_counts(lam: Seq<usize>, mu: Seq<usize>, nu: Seq<usize>, u: Seq<usize>, n: int, r: int, v: int)
    requires
        is_partition(nu),
        nu.len() < usize::MAX,
        includes(nu, lam),
        n >= 1,
        1 <= mu.len() < usize::MAX,
        0 <= r < n,
        0 <= v <= mu.len(),
        u.len() == mu.len() * n,
        forall|i: int| 0 <= i < u.len() ==> 1 <= #[trigger] u[i],
        forall|r2: int| 0 <= r2 < n ==> #[trigger] row_before(lam, u, n, mu.len() as int, r2) == part_at(nu, r2),
    ensures
        le_count(
            row_span(r, part_at(lam, r), part_at(nu, r)).map_values(filling_of_strip(lam, u, n, mu.len() as int)),
            v,
        ) == row_before(lam, u, n, v, r) - part_at(lam, r),
{
    let m = mu.len() as int;
    let a = part_at(lam, r);
    let b = part_at(nu, r);
    let s = row_span(r, a, b).map_values(filling_of_strip(lam, u, n, m));
    lemma_rows_grow(lam, u, n, m, r, 0, v);
    lemma_rows_grow(lam, u, n, m, r, v, m);
    assert(row_before(lam, u, n, 0, r) == a);
    assert forall|t: int| 0 <= t < s.len() implies (#[trigger] s[t] <= v <==> t < row_before(lam, u, n, v, r) - a) by {
        let col = a + 1 + t;
        lemma_row_cell(nu, lam, r, col);
        lemma_first_letter_low(lam, u, n, m, r, col, 1);
        let c = Cell { row: (r + 1) as usize, col: col as usize };
        assert(c.row - 1 == r && c.col == col);
        assert(s[t] == filling_of_strip(lam, u, n, m)(c));
        assert(s[t] == first_letter(lam, u, n, m, r, col, 1));
        if 1 <= v < m {
            lemma_first_letter(lam, u, n, m, r, col, 1, v);
        }
    }
    lemma_le_count_threshold(s, v, row_before(lam, u, n, v, r) - a);
}

proof fn lemma_count_rows_high(f: Map<Cell, usize>, nu: Seq<usize>, lam: Seq<usize>, m: int, i: int, v: int)
    requires
        v > m,
        forall|r: int, t: int|
            0 <= r < i && 0 <= t < row_letters(f, nu, lam, r).len() ==> #[trigger] row_letters(f, nu, lam, r)[t] <= m,
    ensures
        count_of(rows_word(f, nu, lam, i), v) == 0,
    decreases i,
{
    if i > 0 {
        lemma_count_rows_high(f, nu, lam, m, i - 1, v);
        let row = row_letters(f, nu, lam, i - 1);
        assert forall|t: int| 0 <= t < row.len() implies #[trigger] row[t] != v by {
            assert(row_letters(f, nu, lam, i - 1)[t] <= m);
        }
        lemma_count_absent(row, v);
        lemma_count_concat(rows_word(f, nu, lam, i - 1), row, v);
    }
}

/// A strip word with the facts its tableau is built from.
spec fn strip_setup(lam: Seq<usize>, mu: Seq<usize>, nu: Seq<usize>, u: Seq<usize>) -> bool {
    &&& is_partition(nu)
    &&& is_partition(lam)
    &&& is_partition(mu)
    &&& 1 <= mu.len() < usize::MAX
    &&& includes(nu, lam)
    &&& nu.len() < usize::MAX
    &&& seq_sum(lam) + seq_sum(mu) < usize::MAX
    &&& u.len() == mu.len() * (lam.len() + mu.len())
    &&& forall|i: int| 0 <= i < u.len() ==> 1 <= #[trigger] u[i]
    &&& strip_word(lam, mu, nu, (lam.len() + mu.len()) as int)(u)
}

/// What the tableau of a strip word is, cell by cell and row by row.
spec fn strip_known(lam: Seq<usize>, mu: Seq<usize>, nu: Seq<usize>, u: Seq<usize>) -> bool {
    let n = (lam.len() + mu.len()) as int;
    let m = mu.len() as int;
    let cells = skew_cells(nu, lam);
    let g = filling_of_strip(lam, u, n, m);
    let w = word_of_strip(nu, lam, u, n, m);
    let f = pairs_map(cells, w);
    &&& nu.len() <= n
    &&& forall|r: int| 0 <= r < n ==> #[trigger] row_before(lam, u, n, m, r) == part_at(nu, r)
    &&& forall|c: Cell| in_skew(nu, lam, c) ==> #[trigger] f[c] == g(c) && 1 <= g(c) <= m && f.dom().contains(c)
    &&& w.len() == cells.len()
    &&& forall|i: int| 0 <= i < w.len() ==> 1 <= #[trigger] w[i] <= m
    &&& forall|k: int, r: int|
        0 <= k < m && 0 <= r < n ==> #[trigger] strip_entry(u, n, k, r) == count_of(row_letters(f, nu, lam, r), k + 1)
    &&& w == rows_word(f, nu, lam, nu.len() as int)
}

#[verifier::spinoff_prover]
#[verifier::rlimit(60)]
proof fn lemma_strip_known(lam: Seq<usize>, mu: Seq<usize>, nu: Seq<usize>, u: Seq<usize>)
    requires
        strip_setup(lam, mu, nu, u),
    ensures
        strip_known(lam, mu, nu, u),
{
    let n = (lam.len() + mu.len()) as int;
    let m = mu.len() as int;
    let cells = skew_cells(nu, lam);
    let g = filling_of_strip(lam, u, n, m);
    let w = word_of_strip(nu, lam, u, n, m);
    let f = pairs_map(cells, w);
    lemma_word_rows(w, nu, lam);
    lemma_skew_facts(nu, lam);
    lemma_pairs_map(cells, w);
    lemma_strip_ends(lam, mu, nu, u, n);
    assert forall|c: Cell| in_skew(nu, lam, c) implies #[trigger] f[c] == g(c) && 1 <= g(c) <= m && f.dom().contains(c) by {
        let k = choose|k: int| 0 <= k < cells.len() && #[trigger] cells[k] == c;
        assert(f[cells[k]] == w[k]);
        lemma_first_letter_low(lam, u, n, m, c.row - 1, c.col as int, 1);
    }
    assert forall|i: int| 0 <= i < w.len() implies 1 <= #[trigger] w[i] <= m by {
        assert(in_skew(nu, lam, cells[i]));
        lemma_first_letter_low(lam, u, n, m, cells[i].row - 1, cells[i].col as int, 1);
    }
    assert forall|k: int, r: int| 0 <= k < m && 0 <= r < n implies #[trigger] strip_entry(u, n, k, r) == count_of(
        row_letters(f, nu, lam, r),
        k + 1,
    ) by {
        let a = part_at(lam, r);
        assert forall|t: int| 0 <= t < part_at(nu, r) - a implies #[trigger] row_letters(f, nu, lam, r)[t]
            == row_span(r, a, part_at(nu, r)).map_values(g)[t] by {
            lemma_row_cell(nu, lam, r, a + 1 + t);
        }
        assert(row_letters(f, nu, lam, r) =~= row_span(r, a, part_at(nu, r)).map_values(g));
        lemma_strip_row_counts(lam, mu, nu, u, n, r, k + 1);
        lemma_strip_row_counts(lam, mu, nu, u, n, r, k);
        lemma_le_count_step(row_letters(f, nu, lam, r), k + 1);
    }
}

proof fn lemma_strip_back(lam: Seq<usize>, mu: Seq<usize>, nu: Seq<usize>, u: Seq<usize>)
    requires
        strip_setup(lam, mu, nu, u),
        strip_known(lam, mu, nu, u),
    ensures
        strip_of_filling(
            pairs_map(skew_cells(nu, lam), word_of_strip(nu, lam, u, (lam.len() + mu.len()) as int, mu.len() as int)),
            nu,
            lam,
            mu.len() as int,
            (lam.len() + mu.len()) as int,
        ) == u,
{
    let n = (lam.len() + mu.len()) as int;
    let m = mu.len() as int;
    let f = pairs_map(skew_cells(nu, lam), word_of_strip(nu, lam, u, n, m));
    assert forall|i: int| 0 <= i < u.len() implies #[trigger] strip_of_filling(f, nu, lam, m, n)[i] == u[i] by {
        lemma_fundamental_div_mod(i, n);
        lemma_mod_pos_bound(i, n);
        lemma_div_pos_is_pos(i, n);
        let k = i / n;
        let r = i % n;
        assert(k < m && k * n + r == i) by (nonlinear_arith)
            requires
                i == n * k + r,
                0 <= r < n,
                i < m * n,
                n >= 1,
        ;
        assert(strip_entry(u, n, k, r) == count_of(row_letters(f, nu, lam, r), k + 1));
    }
    assert(strip_of_filling(f, nu, lam, m, n) =~= u);
}

proof fn lemma_strip_rows_weak(lam: Seq<usize>, mu: Seq<usize>, nu: Seq<usize>, u: Seq<usize>)
    requires
        strip_setup(lam, mu, nu, u),
        strip_known(lam, mu, nu, u),
    ensures
        rows_weak(nu, lam, pairs_map(skew_cells(nu, lam), word_of_strip(nu, lam, u, (lam.len() + mu.len()) as int, mu.len() as int))),
{
    let n = (lam.len() + mu.len()) as int;
    let m = mu.len() as int;
    let g = filling_of_strip(lam, u, n, m);
    let f = pairs_map(skew_cells(nu, lam), word_of_strip(nu, lam, u, n, m));
    assert forall|c: Cell|
        in_skew(nu, lam, c) && c.col >= 2 && in_skew(nu, lam, left_of(c)) implies f[left_of(c)] <= #[trigger] f[c] by {
        let r = c.row - 1;
        let l = left_of(c);
        assert(f[c] == g(c) && f[l] == g(l));
        assert(l.row - 1 == r && l.col == c.col - 1);
        let v = first_letter(lam, u, n, m, r, c.col as int, 1);
        lemma_first_letter_low(lam, u, n, m, r, c.col as int, 1);
        lemma_first_letter_low(lam, u, n, m, r, l.col as int, 1);
        if v < m {
            lemma_first_letter(lam, u, n, m, r, c.col as int, 1, v);
            lemma_first_letter(lam, u, n, m, r, l.col as int, 1, v);
        }
    }
}

/// In a strip sequence whose letters form horizontal strips, the letter in a cell is
/// larger than the letter in the cell above it.
proof fn lemma_col_letters(lam: Seq<usize>, u: Seq<usize>, n: int, m: int, r: int, col: int)
    requires
        n >= 1,
        m >= 1,
        1 <= r < n,
        u.len() == m * n,
        forall|i: int| 0 <= i < u.len() ==> 1 <= #[trigger] u[i],
        part_at(lam, r) < col <= row_before(lam, u, n, m, r),
        part_at(lam, r - 1) < col,
        forall|j: int|
            0 <= j < m ==> row_before(lam, u, n, j, r) + #[trigger] strip_entry(u, n, j, r) <= row_before(
                lam,
                u,
                n,
                j,
                r - 1,
            ),
    ensures
        first_letter(lam, u, n, m, r - 1, col, 1) < first_letter(lam, u, n, m, r, col, 1),
{
    let v = first_letter(lam, u, n, m, r, col, 1);
    lemma_first_letter_low(lam, u, n, m, r, col, 1);
    lemma_first_letter_low(lam, u, n, m, r - 1, col, 1);
    if v < m {
        lemma_first_letter(lam, u, n, m, r, col, 1, v);
    }
    assert(col <= row_before(lam, u, n, v, r));
    if v >= 2 {
        lemma_first_letter(lam, u, n, m, r, col, 1, v - 1);
    }
    assert(col > row_before(lam, u, n, v - 1, r));
    assert(row_before(lam, u, n, v - 1, r) + strip_entry(u, n, v - 1, r) <= row_before(lam, u, n, v - 1, r - 1));
    assert(col <= row_before(lam, u, n, v - 1, r - 1));
    if v >= 2 {
        lemma_first_letter(lam, u, n, m, r - 1, col, 1, v - 1);
    }
}

proof fn lemma_strip_col_cell(lam: Seq<usize>, mu: Seq<usize>, nu: Seq<usize>, u: Seq<usize>, c: Cell)
    requires
        strip_setup(lam, mu, nu, u),
        strip_known(lam, mu, nu, u),
        in_skew(nu, lam, c),
        c.row >= 2,
        in_skew(nu, lam, above(c)),
    ensures
        filling_of_strip(lam, u, (lam.len() + mu.len()) as int, mu.len() as int)(above(c))
            < filling_of_strip(lam, u, (lam.len() + mu.len()) as int, mu.len() as int)(c),
{
    let n = (lam.len() + mu.len()) as int;
    let m = mu.len() as int;
    let r = c.row - 1;
    let col = c.col as int;
    let t = above(c);
    assert(t.row - 1 == r - 1 && t.col == c.col);
    assert(r < nu.len());
    assert(row_before(lam, u, n, m, r) == part_at(nu, r));
    let ok = strip_word(lam, mu, nu, n);
    assert(ok(u));
    assert forall|j: int| 0 <= j < m implies row_before(lam, u, n, j, r) + #[trigger] strip_entry(u, n, j, r)
        <= row_before(lam, u, n, j, r - 1) by {}
    lemma_col_letters(lam, u, n, m, r, col);
    lemma_first_letter_low(lam, u, n, m, r, col, 1);
    lemma_first_letter_low(lam, u, n, m, r - 1, col, 1);
}

proof fn lemma_strip_cols_strict(lam: Seq<usize>, mu: Seq<usize>, nu: Seq<usize>, u: Seq<usize>)
    requires
        strip_setup(lam, mu, nu, u),
        strip_known(lam, mu, nu, u),
    ensures
        cols_strict(nu, lam, pairs_map(skew_cells(nu, lam), word_of_strip(nu, lam, u, (lam.len() + mu.len()) as int, mu.len() as int))),
{
    let n = (lam.len() + mu.len()) as int;
    let m = mu.len() as int;
    let g = filling_of_strip(lam, u, n, m);
    let f = pairs_map(skew_cells(nu, lam), word_of_strip(nu, lam, u, n, m));
    assert forall|c: Cell|
        in_skew(nu, lam, c) && c.row >= 2 && in_skew(nu, lam, above(c)) implies f[above(c)] < #[trigger] f[c] by {
        assert(f[c] == g(c) && f[above(c)] == g(above(c)));
        lemma_strip_col_cell(lam, mu, nu, u, c);
    }
}

proof fn lemma_strip_lattice(lam: Seq<usize>, mu: Seq<usize>, nu: Seq<usize>, u: Seq<usize>)
    requires
        strip_setup(lam, mu, nu, u),
        strip_known(lam, mu, nu, u),
    ensures
        is_lattice(rows_reading(
            pairs_map(skew_cells(nu, lam), word_of_strip(nu, lam, u, (lam.len() + mu.len()) as int, mu.len() as int)),
            nu,
            lam,
            nu.len() as int,
        )),
{
    let n = (lam.len() + mu.len()) as int;
    let m = mu.len() as int;
    let r0 = nu.len() as int;
    let f = pairs_map(skew_cells(nu, lam), word_of_strip(nu, lam, u, n, m));
    assert forall|r: int, t: int|
        0 <= r < r0 && 0 <= t < row_letters(f, nu, lam, r).len() implies #[trigger] row_letters(f, nu, lam, r)[t] <= m by {
        lemma_row_cell(nu, lam, r, part_at(lam, r) + 1 + t);
    }
    assert forall|k: int, i: int|
        1 <= k && 1 <= i <= r0 implies #[trigger] count_of(rows_word(f, nu, lam, i), k + 1) <= count_of(
            rows_word(f, nu, lam, i - 1),
            k,
        ) by {
        if k < m {
            lemma_letters_of_rows(f, nu, lam, u, n, k, i);
            lemma_letters_of_rows(f, nu, lam, u, n, k - 1, i - 1);
            assert(letter_rows(u, n, k, i) <= letter_rows(u, n, k - 1, i - 1));
        } else {
            lemma_count_rows_high(f, nu, lam, m, i, k + 1);
        }
    }
    lemma_lattice_from_rows(f, nu, lam, r0);
    lemma_lattice_prefixes(rows_reading(f, nu, lam, r0));
}

proof fn lemma_strip_fills(lam: Seq<usize>, mu: Seq<usize>, nu: Seq<usize>, u: Seq<usize>)
    requires
        strip_setup(lam, mu, nu, u),
    ensures
        fills(pairs_map(skew_cells(nu, lam), word_of_strip(nu, lam, u, (lam.len() + mu.len()) as int, mu.len() as int)),
            nu, lam, mu.len() as int),
{
    let n = (lam.len() + mu.len()) as int;
    let m = mu.len() as int;
    let cells = skew_cells(nu, lam);
    let w = word_of_strip(nu, lam, u, n, m);
    let f = pairs_map(cells, w);
    lemma_skew_facts(nu, lam);
    lemma_pairs_map(cells, w);
    assert forall|c: Cell| in_skew(nu, lam, c) implies f.dom().contains(c) && 1 <= #[trigger] f[c] <= m by {
        let k = choose|k: int| 0 <= k < cells.len() && #[trigger] cells[k] == c;
        assert(f[cells[k]] == w[k]);
        lemma_first_letter_low(lam, u, n, m, c.row - 1, c.col as int, 1);
    }
}

/// Writing each row's letters in increasing order turns a strip word into a
/// Littlewood-Richardson filling, whose strip word is the one it came from.
#[verifier::spinoff_prover]
proof fn lemma_strip_filling(lam: Seq<usize>, mu: Seq<usize>, nu: Seq<usize>, u: Seq<usize>)
    requires
        strip_setup(lam, mu, nu, u),
    ensures
        ({
            let n = (lam.len() + mu.len()) as int;
            let m = mu.len() as int;
            let cells = skew_cells(nu, lam);
            let w = word_of_strip(nu, lam, u, n, m);
            let f = pairs_map(cells, w);
            &&& w.len() == cells.len()
            &&& forall|i: int| 0 <= i < w.len() ==> 1 <= #[trigger] w[i] <= m
            &&& lr_filling(f, nu, lam, mu)
            &&& strip_of_filling(f, nu, lam, m, n) == u
        }),
{
    let n = (lam.len() + mu.len()) as int;
    let m = mu.len() as int;
    let r0 = nu.len() as int;
    let f = pairs_map(skew_cells(nu, lam), word_of_strip(nu, lam, u, n, m));
    lemma_strip_known(lam, mu, nu, u);
    lemma_strip_back(lam, mu, nu, u);
    lemma_strip_rows_weak(lam, mu, nu, u);
    lemma_strip_cols_strict(lam, mu, nu, u);
    lemma_strip_lattice(lam, mu, nu, u);
    lemma_rows_word_tail(f, nu, lam, n);
    assert forall|v: int| 1 <= v <= m implies #[trigger] count_of(rows_word(f, nu, lam, r0), v) == mu[v - 1] by {
        lemma_letters_of_rows(f, nu, lam, u, n, v - 1, n);
    }
    lemma_strip_fills(lam, mu, nu, u);
    assert(lr_filling(f, nu, lam, mu));
}

// ----- counting both sides -----

proof fn lemma_sorted_distinct(s: Seq<Seq<usize>>)
    requires
        forall|i: int, j: int| 0 <= i < j < s.len() ==> lex_lt(#[trigger] s[i], #[trigger] s[j]),
    ensures
        s.no_duplicates(),
        s.len() == s.to_set().len(),
{
    assert forall|i: int, j: int| 0 <= i < s.len() && 0 <= j < s.len() && i != j implies s[i] != s[j] by {
        lemma_lex_lt_strict(s[i], s[j], s[i]);
        if i < j {
            assert(lex_lt(s[i], s[j]));
        } else {
            assert(lex_lt(s[j], s[i]));
        }
    }
    s.unique_seq_to_set();
}

/// The strip sequence of a Littlewood-Richardson tableau, given as its word.
pub open spec fn strip_of_word(nu: Seq<usize>, lam: Seq<usize>, mu: Seq<usize>) -> spec_fn(Seq<usize>) -> Seq<usize> {
    |w: Seq<usize>| strip_of_filling(pairs_map(skew_cells(nu, lam), w), nu, lam, mu.len() as int,
        (lam.len() + mu.len()) as int)
}

/// Facts shared by the two directions of the correspondence.
spec fn lr_setup(lam: Seq<usize>, mu: Seq<usize>, nu: Seq<usize>) -> bool {
    &&& is_partition(nu)
    &&& is_partition(lam)
    &&& is_partition(mu)
    &&& 1 <= mu.len() < usize::MAX
    &&& includes(nu, lam)
    &&& nu.len() < usize::MAX
    &&& seq_sum(nu) < usize::MAX
    &&& seq_sum(lam) + seq_sum(mu) < usize::MAX
}

/// A tableau's strip sequence is a strip word, and its letters come back from it.
proof fn lemma_tableau_to_strip(lam: Seq<usize>, mu: Seq<usize>, nu: Seq<usize>, w: Seq<usize>)
    requires
        lr_setup(lam, mu, nu),
        completes(w, Seq::<usize>::empty(), skew_cells(nu, lam).len(), mu.len(), lr_word(nu, lam, mu)),
    ensures
        completes(strip_of_word(nu, lam, mu)(w), Seq::<usize>::empty(), (mu.len() * (lam.len() + mu.len())) as nat,
            (seq_sum(mu) + 1) as nat, strip_word(lam, mu, nu, (lam.len() + mu.len()) as int)),
        word_of_strip(nu, lam, strip_of_word(nu, lam, mu)(w), (lam.len() + mu.len()) as int, mu.len() as int) == w,
{
    let n = (lam.len() + mu.len()) as int;
    let m = mu.len() as int;
    let cells = skew_cells(nu, lam);
    let f = pairs_map(cells, w);
    let u = strip_of_word(nu, lam, mu)(w);
    assert(forall|i: int| 0 <= i < w.len() ==> 1 <= #[trigger] w[i] <= mu.len());
    lemma_lr_word_filling(nu, lam, mu, w);
    lemma_seq_sum_nonneg(mu);
    lemma_seq_sum_nonneg(lam);
    lemma_filling_strip(f, nu, lam, mu);
    assert(u.subrange(0, 0) =~= Seq::<usize>::empty());
    lemma_skew_facts(nu, lam);
    lemma_pairs_map(cells, w);
    let g = filling_of_strip(lam, u, n, m);
    assert forall|k: int| 0 <= k < w.len() implies #[trigger] word_of_strip(nu, lam, u, n, m)[k] == w[k] by {
        assert(in_skew(nu, lam, cells[k]));
        assert(f[cells[k]] == w[k]);
    }
    assert(word_of_strip(nu, lam, u, n, m) =~= w);
}

/// A strip word's tableau is a Littlewood-Richardson tableau whose strip sequence is the
/// word it came from.
proof fn lemma_strip_to_tableau(lam: Seq<usize>, mu: Seq<usize>, nu: Seq<usize>, u: Seq<usize>)
    requires
        lr_setup(lam, mu, nu),
        completes(u, Seq::<usize>::empty(), (mu.len() * (lam.len() + mu.len())) as nat, (seq_sum(mu) + 1) as nat,
            strip_word(lam, mu, nu, (lam.len() + mu.len()) as int)),
    ensures
        completes(word_of_strip(nu, lam, u, (lam.len() + mu.len()) as int, mu.len() as int), Seq::<usize>::empty(),
            skew_cells(nu, lam).len(), mu.len(), lr_word(nu, lam, mu)),
        strip_of_word(nu, lam, mu)(word_of_strip(nu, lam, u, (lam.len() + mu.len()) as int, mu.len() as int)) == u,
{
    let n = (lam.len() + mu.len()) as int;
    let m = mu.len() as int;
    let w = word_of_strip(nu, lam, u, n, m);
    assert(strip_setup(lam, mu, nu, u));
    lemma_strip_filling(lam, mu, nu, u);
    lemma_lr_word_filling(nu, lam, mu, w);
    assert(w.subrange(0, 0) =~= Seq::<usize>::empty());
}

/// The strip words for `nu` listed once each.
spec fn strip_list(lam: Seq<usize>, mu: Seq<usize>, nu: Seq<usize>) -> Seq<Seq<usize>> {
    words_from(
        Seq::<usize>::empty(),
        (mu.len() * (lam.len() + mu.len())) as nat,
        (seq_sum(mu) + 1) as nat,
        strip_word(lam, mu, nu, (lam.len() + mu.len()) as int),
    )
}

#[verifier::spinoff_prover]
#[verifier::rlimit(60)]
proof fn lemma_lr_strip_image(lam: Seq<usize>, mu: Seq<usize>, nu: Seq<usize>)
    requires
        lr_setup(lam, mu, nu),
    ensures
        lr_tableaux(nu, lam, mu).to_set().map(strip_of_word(nu, lam, mu)) == strip_list(lam, mu, nu).to_set(),
{
    let n = (lam.len() + mu.len()) as int;
    let m = mu.len() as int;
    let e = Seq::<usize>::empty();
    let len = (mu.len() * (lam.len() + mu.len())) as nat;
    let b = (seq_sum(mu) + 1) as nat;
    let a_list = lr_tableaux(nu, lam, mu);
    let b_list = strip_list(lam, mu, nu);
    let f = strip_of_word(nu, lam, mu);
    lemma_seq_sum_nonneg(lam);
    lemma_seq_sum_nonneg(mu);
    lemma_words_from(e, skew_cells(nu, lam).len(), mu.len(), lr_word(nu, lam, mu));
    lemma_words_from(e, len, b, strip_word(lam, mu, nu, n));
    let xs = a_list.to_set();
    let ys = b_list.to_set();
    assert forall|u: Seq<usize>| #[trigger] xs.map(f).contains(u) <==> ys.contains(u) by {
        if xs.map(f).contains(u) {
            let w = choose|w: Seq<usize>| xs.contains(w) && u == f(w);
            assert(a_list.contains(w));
            lemma_tableau_to_strip(lam, mu, nu, w);
            assert(b_list.contains(u));
        }
        if ys.contains(u) {
            assert(b_list.contains(u));
            lemma_strip_to_tableau(lam, mu, nu, u);
            let w = word_of_strip(nu, lam, u, n, m);
            assert(a_list.contains(w));
            assert(xs.contains(w) && u == f(w));
        }
    }
    assert(xs.map(f) =~= ys);
}

proof fn lemma_lr_strip_injective(lam: Seq<usize>, mu: Seq<usize>, nu: Seq<usize>)
    requires
        lr_setup(lam, mu, nu),
    ensures
        vstd::relations::injective_on(strip_of_word(nu, lam, mu), lr_tableaux(nu, lam, mu).to_set()),
{
    let e = Seq::<usize>::empty();
    let a_list = lr_tableaux(nu, lam, mu);
    let xs = a_list.to_set();
    let f = strip_of_word(nu, lam, mu);
    lemma_words_from(e, skew_cells(nu, lam).len(), mu.len(), lr_word(nu, lam, mu));
    assert forall|w1: Seq<usize>, w2: Seq<usize>| xs.contains(w1) && xs.contains(w2) && #[trigger] f(w1) == #[trigger] f(w2)
        implies w1 == w2 by {
        assert(a_list.contains(w1) && a_list.contains(w2));
        lemma_tableau_to_strip(lam, mu, nu, w1);
        lemma_tableau_to_strip(lam, mu, nu, w2);
    }
}

/// There are as many Littlewood-Richardson tableaux of shape `nu / lam` and content `mu`
/// as strip words that carry `lam` to `nu`.
proof fn lemma_lr_strip_count(lam: Seq<usize>, mu: Seq<usize>, nu: Seq<usize>)
    requires
        lr_setup(lam, mu, nu),
    ensures
        lr_tableaux(nu, lam, mu).len() == strip_list(lam, mu, nu).len(),
{
    let n = (lam.len() + mu.len()) as int;
    let e = Seq::<usize>::empty();
    let len = (mu.len() * (lam.len() + mu.len())) as nat;
    let b = (seq_sum(mu) + 1) as nat;
    let a_list = lr_tableaux(nu, lam, mu);
    let b_list = strip_list(lam, mu, nu);
    lemma_seq_sum_nonneg(lam);
    lemma_seq_sum_nonneg(mu);
    lemma_words_sorted(e, skew_cells(nu, lam).len(), mu.len(), lr_word(nu, lam, mu));
    lemma_words_sorted(e, len, b, strip_word(lam, mu, nu, n));
    lemma_sorted_distinct(a_list);
    lemma_sorted_distinct(b_list);
    seq_to_set_is_finite(a_list);
    lemma_lr_strip_image(lam, mu, nu);
    lemma_lr_strip_injective(lam, mu, nu);
    lemma_map_size(a_list.to_set(), b_list.to_set(), strip_of_word(nu, lam, mu));
}

/// The constructive decomposition gives each shape the Littlewood-Richardson coefficient:
/// for all partitions `lambda`, `mu` and `nu`, the number of strip sequences that carry
/// `lambda` to `nu` with the boxes of `mu` is the number of Littlewood-Richardson
/// tableaux of shape `nu / lambda` and content `mu`.
pub proof fn lemma_pieri_count_is_lr(lambda: Seq<usize>, mu: Seq<usize>, nu: Seq<usize>)
    requires
        is_partition(lambda),
        is_partition(mu),
        is_partition(nu),
        seq_sum(lambda) + seq_sum(mu) < usize::MAX,
    ensures
        pieri_count(lambda, mu, Some(nu)) == lr_value(lambda, mu, nu),
{
    lemma_seq_sum_nonneg(lambda);
    lemma_seq_sum_nonneg(mu);
    lemma_len_le_sum(lambda);
    lemma_len_le_sum(mu);
    if seq_sum(nu) != seq_sum(lambda) + seq_sum(mu) || !includes(nu, lambda) {
        if pieri_count(lambda, mu, Some(nu)) > 0 {
            lemma_pieri_shapes(lambda, mu, nu);
        }
    } else if mu.len() == 0 {
        lemma_len_le_sum(nu);
        assert(mu =~= Seq::<usize>::empty());
        lemma_pieri_nothing_added(lambda, nu);
    } else {
        lemma_len_le_sum(nu);
        assert(lr_setup(lambda, mu, nu));
        lemma_pieri_counts_strip_words(lambda, mu, nu);
        lemma_lr_strip_count(lambda, mu, nu);
    }
}

// ----- content of single boxes -----

/// The word `1, 2, ..., m`.
pub open spec fn first_letters(m: int) -> Seq<usize> {
    Seq::new(m as nat, |i: int| (i + 1) as usize)
}

/// The partition of `m` into parts equal to 1.
pub open spec fn ones(m: int) -> Seq<usize> {
    Seq::new(m as nat, |i: int| 1usize)
}

/// No row of `nu / lam` has more than one box: a vertical strip.
pub open spec fn vertical_strip(nu: Seq<usize>, lam: Seq<usize>) -> bool {
    forall|r: int| 0 <= r ==> #[trigger] part_at(nu, r) <= part_at(lam, r) + 1
}

proof fn lemma_count_present(s: Seq<usize>, i: int)
    requires
        0 <= i < s.len(),
    ensures
        count_of(s, s[i] as int) >= 1,
    decreases s.len(),
{
    if i < s.len() - 1 {
        lemma_count_present(s.drop_last(), i);
        assert(s.drop_last()[i] == s[i]);
    }
}

proof fn lemma_lattice_once_upto(x: Seq<usize>, m: int, p: int)
    requires
        is_lattice(x),
        x.len() == m,
        forall|i: int| 0 <= i < m ==> 1 <= #[trigger] x[i] <= m,
        forall|v: int| 1 <= v <= m ==> #[trigger] count_of(x, v) == 1,
        0 <= p < m,
    ensures
        forall|q: int| 0 <= q <= p ==> #[trigger] x[q] == q + 1,
    decreases p,
{
    if p > 0 {
        lemma_lattice_once_upto(x, m, p - 1);
    }
    let v = x[p] as int;
    let t = x.take(p);
    let t1 = x.take(p + 1);
    assert(t1.drop_last() =~= t);
    assert(t1.last() == x[p]);
    assert forall|q: int| 0 <= q < p implies #[trigger] t[q] == q + 1 by {
        assert(t[q] == x[q]);
    }
    if v <= p {
        lemma_count_present(t, v - 1);
        assert(t[v - 1] == v);
        lemma_count_take_le(x, p + 1, v);
        assert(count_of(t1, v) >= 2);
        assert(false);
    } else if v > p + 1 {
        let k = v - 1;
        lemma_count_absent(t, k);
        assert(count_of(t1, k) == 0);
        assert(count_of(t1, k + 1) >= 1);
        lemma_lattice_prefixes(x);
        assert(count_of(x.take(p + 1), k) >= count_of(x.take(p + 1), k + 1));
        assert(false);
    }
}

/// A lattice word that holds each of the letters `1..=m` once is `1, 2, ..., m`.
proof fn lemma_lattice_once(x: Seq<usize>, m: int)
    requires
        is_lattice(x),
        x.len() == m,
        forall|i: int| 0 <= i < m ==> 1 <= #[trigger] x[i] <= m,
        forall|v: int| 1 <= v <= m ==> #[trigger] count_of(x, v) == 1,
    ensures
        x == first_letters(m),
{
    if m > 0 {
        lemma_lattice_once_upto(x, m, m - 1);
    }
    assert(x =~= first_letters(m));
}

proof fn lemma_count_first(m: int, v: int)
    requires
        0 <= m <= usize::MAX,
    ensures
        count_of(first_letters(m), v) == if 1 <= v <= m { 1nat } else { 0nat },
    decreases m,
{
    if m > 0 {
        lemma_count_first(m - 1, v);
        assert(first_letters(m).drop_last() =~= first_letters(m - 1));
        assert(first_letters(m).last() == m);
    }
}

/// `1, 2, ..., m` is a lattice word.
proof fn lemma_first_lattice(m: int)
    requires
        0 <= m <= usize::MAX,
    ensures
        is_lattice(first_letters(m)),
{
    let x = first_letters(m);
    assert forall|p: int, k: int| 1 <= p <= x.len() && 1 <= k implies #[trigger] count_of(x.take(p), k)
        >= #[trigger] count_of(x.take(p), k + 1) by {
        assert(x.take(p) =~= first_letters(p));
        lemma_count_first(p, k);
        lemma_count_first(p, k + 1);
    }
    lemma_lattice_prefixes(x);
}

/// When no row has two boxes, reading rows right to left changes nothing.
proof fn lemma_vertical_reading(f: Map<Cell, usize>, nu: Seq<usize>, lam: Seq<usize>, k: int)
    requires
        includes(nu, lam),
        vertical_strip(nu, lam),
    ensures
        rows_reading(f, nu, lam, k) == rows_word(f, nu, lam, k),
    decreases k,
{
    if k > 0 {
        lemma_vertical_reading(f, nu, lam, k - 1);
        let row = row_letters(f, nu, lam, k - 1);
        assert(part_at(nu, k - 1) <= part_at(lam, k - 1) + 1);
        assert(part_at(lam, k - 1) <= part_at(nu, k - 1));
        assert(row.len() <= 1);
        assert(row.reverse() =~= row);
    }
}

proof fn lemma_reading_range(f: Map<Cell, usize>, nu: Seq<usize>, lam: Seq<usize>, m: int, k: int)
    requires
        is_partition(nu),
        nu.len() < usize::MAX,
        includes(nu, lam),
        fills(f, nu, lam, m),
    ensures
        forall|i: int| 0 <= i < rows_reading(f, nu, lam, k).len() ==> 1 <= #[trigger] rows_reading(f, nu, lam, k)[i] <= m,
    decreases k,
{
    if k > 0 {
        lemma_reading_range(f, nu, lam, m, k - 1);
        let a = rows_reading(f, nu, lam, k - 1);
        let row = row_letters(f, nu, lam, k - 1);
        let rr = rows_reading(f, nu, lam, k);
        assert(rr == a + row.reverse());
        assert(part_at(lam, k - 1) <= part_at(nu, k - 1));
        assert forall|i: int| 0 <= i < rr.len() implies 1 <= #[trigger] rr[i] <= m by {
            if i < a.len() {
                assert(rr[i] == a[i]);
            } else {
                let t = row.len() - 1 - (i - a.len());
                assert(rr[i] == row[t]);
                let col = part_at(lam, k - 1) + 1 + t;
                lemma_row_cell(nu, lam, k - 1, col);
                let c = Cell { row: k as usize, col: col as usize };
                assert(row[t] == f[c]);
            }
        }
    }
}

/// A Littlewood-Richardson filling whose letters `1..=m` each occur once lies in a
/// vertical strip and reads `1, 2, ..., m`.
proof fn lemma_ones_filling(f: Map<Cell, usize>, nu: Seq<usize>, lam: Seq<usize>, m: int)
    requires
        is_partition(nu),
        nu.len() < usize::MAX,
        includes(nu, lam),
        0 <= m <= usize::MAX,
        lr_filling(f, nu, lam, ones(m)),
        rows_word(f, nu, lam, nu.len() as int).len() == m,
    ensures
        vertical_strip(nu, lam),
        rows_reading(f, nu, lam, nu.len() as int) == first_letters(m),
{
    let r0 = nu.len() as int;
    let x = rows_reading(f, nu, lam, r0);
    lemma_reading_counts(f, nu, lam, r0, 0);
    assert forall|v: int| 1 <= v <= m implies #[trigger] count_of(x, v) == 1 by {
        lemma_reading_counts(f, nu, lam, r0, v);
        assert(ones(m)[v - 1] == 1);
    }
    lemma_reading_range(f, nu, lam, m, r0);
    lemma_lattice_once(x, m);
    assert forall|r: int| 0 <= r implies #[trigger] part_at(nu, r) <= part_at(lam, r) + 1 by {
        if part_at(nu, r) > part_at(lam, r) + 1 {
            assert(r < nu.len());
            let s = row_letters(f, nu, lam, r);
            assert(s.len() >= 2);
            lemma_rows_sorted(f, nu, lam, r);
            let a = rows_reading(f, nu, lam, r);
            let p = a.len() as int;
            lemma_reading_prefix(f, nu, lam, r + 1, r0);
            let b = rows_reading(f, nu, lam, r + 1);
            assert(b == a + s.reverse());
            assert(x.take(b.len() as int) == b);
            assert(x[p] == b[p]);
            assert(x[p + 1] == b[p + 1]);
            assert(b[p] == s[s.len() - 1]);
            assert(b[p + 1] == s[s.len() - 2]);
            assert(s[s.len() - 2] <= s[s.len() - 1]);
            assert(false);
        }
    }
}

/// Numbering the boxes of a vertical strip `1, 2, ..., m` row by row gives a
/// Littlewood-Richardson filling with each letter once.
proof fn lemma_first_filling(nu: Seq<usize>, lam: Seq<usize>, m: int)
    requires
        is_partition(nu),
        nu.len() < usize::MAX,
        includes(nu, lam),
        vertical_strip(nu, lam),
        skew_cells(nu, lam).len() == m,
        0 <= m <= usize::MAX,
    ensures
        lr_filling(pairs_map(skew_cells(nu, lam), first_letters(m)), nu, lam, ones(m)),
{
    let r0 = nu.len() as int;
    let cells = skew_cells(nu, lam);
    let w = first_letters(m);
    let f = pairs_map(cells, w);
    lemma_skew_facts(nu, lam);
    lemma_pairs_map(cells, w);
    lemma_word_rows(w, nu, lam);
    assert forall|c: Cell| in_skew(nu, lam, c) implies f.dom().contains(c) && 1 <= #[trigger] f[c] <= m by {
        let k = choose|k: int| 0 <= k < cells.len() && #[trigger] cells[k] == c;
        assert(f[cells[k]] == w[k]);
    }
    assert forall|c: Cell|
        in_skew(nu, lam, c) && c.col >= 2 && in_skew(nu, lam, left_of(c)) implies f[left_of(c)] <= #[trigger] f[c] by {
        let r = c.row - 1;
        assert(part_at(nu, r) <= part_at(lam, r) + 1);
    }
    assert forall|c: Cell|
        in_skew(nu, lam, c) && c.row >= 2 && in_skew(nu, lam, above(c)) implies f[above(c)] < #[trigger] f[c] by {
        let kc = choose|k: int| 0 <= k < cells.len() && #[trigger] cells[k] == c;
        let ka = choose|k: int| 0 <= k < cells.len() && #[trigger] cells[k] == above(c);
        assert(before(cells[ka], cells[kc]));
        assert(f[cells[kc]] == w[kc]);
        assert(f[cells[ka]] == w[ka]);
    }
    assert forall|v: int| 1 <= v <= m implies #[trigger] count_of(rows_word(f, nu, lam, r0), v) == ones(m)[v - 1] by {
        lemma_count_first(m, v);
    }
    lemma_vertical_reading(f, nu, lam, r0);
    lemma_first_lattice(m);
}

/// A Littlewood-Richardson tableau of content `1, 1, ..., 1` lies in a vertical strip
/// and is numbered `1, 2, ..., m` row by row.
proof fn lemma_ones_word(nu: Seq<usize>, lam: Seq<usize>, m: int, w: Seq<usize>)
    requires
        is_partition(nu),
        nu.len() < usize::MAX,
        includes(nu, lam),
        skew_cells(nu, lam).len() == m,
        0 <= m <= usize::MAX,
        completes(w, Seq::<usize>::empty(), m as nat, m as nat, lr_word(nu, lam, ones(m))),
    ensures
        vertical_strip(nu, lam),
        w == first_letters(m),
{
    let f = pairs_map(skew_cells(nu, lam), w);
    assert(forall|i: int| 0 <= i < w.len() ==> 1 <= #[trigger] w[i] <= ones(m).len());
    lemma_lr_word_filling(nu, lam, ones(m), w);
    lemma_word_rows(w, nu, lam);
    lemma_ones_filling(f, nu, lam, m);
    lemma_vertical_reading(f, nu, lam, nu.len() as int);
}

proof fn lemma_sum_ones(m: int)
    requires
        0 <= m,
    ensures
        seq_sum(ones(m)) == m,
    decreases m,
{
    if m > 0 {
        lemma_sum_ones(m - 1);
        assert(ones(m).drop_last() =~= ones(m - 1));
    }
}

/// The dual Pieri rule: `lambda ⊗ (1, 1, ..., 1)` with `m` ones holds `nu` once when
/// `nu` is `lambda` with `m` boxes added in different rows (a vertical strip), and not
/// at all otherwise.
pub proof fn lemma_lr_vertical_strip(lambda: Seq<usize>, m: nat, nu: Seq<usize>)
    requires
        is_partition(lambda),
        is_partition(nu),
        seq_sum(nu) < usize::MAX,
    ensures
        lr_value(lambda, ones(m as int), nu) == if seq_sum(nu) == seq_sum(lambda) + m && includes(nu, lambda)
            && vertical_strip(nu, lambda) {
            1nat
        } else {
            0nat
        },
{
    let mi = m as int;
    lemma_sum_ones(mi);
    if seq_sum(nu) == seq_sum(lambda) + m && includes(nu, lambda) {
        lemma_seq_sum_nonneg(lambda);
        lemma_len_le_sum(nu);
        lemma_skew_size(nu, lambda);
        let e = Seq::<usize>::empty();
        let lw = lr_word(nu, lambda, ones(mi));
        let a = lr_tableaux(nu, lambda, ones(mi));
        assert(ones(mi).len() == m);
        lemma_words_from(e, m, m, lw);
        assert forall|w: Seq<usize>| #[trigger] a.contains(w) implies vertical_strip(nu, lambda) && w == first_letters(mi) by {
            lemma_ones_word(nu, lambda, mi, w);
        }
        if vertical_strip(nu, lambda) {
            let w0 = first_letters(mi);
            lemma_first_filling(nu, lambda, mi);
            lemma_lr_word_filling(nu, lambda, ones(mi), w0);
            assert(w0.subrange(0, 0) =~= e);
            assert(a.contains(w0));
            lemma_words_sorted(e, m, m, lw);
            if a.len() >= 2 {
                assert(a.contains(a[0]) && a.contains(a[1]));
                assert(lex_lt(a[0], a[1]));
                lemma_lex_lt_strict(a[0], a[0], a[0]);
            }
        } else if a.len() > 0 {
            assert(a.contains(a[0]));
        }
    }
}

} // verus!
