//! The constructive decomposition counted directly: a Littlewood-Richardson strip
//! sequence written as a word, and the law that the strip search counts exactly those
//! words.
use vstd::prelude::*;
use crate::partition::{is_partition, part_at, seq_sum, lemma_seq_sum_nonneg, lemma_part_le_sum};
use crate::lr_rule::{strip_completions, pieri_count, trim_zeros, prefix_total, padded, lemma_prefix_step,
    lemma_prefix_mono};
use crate::words::{words_from, words_with_next, completes, lemma_words_from, lemma_words_with_next};

verus! {

/// The entry for letter `k + 1` and row `r` (both from 0) of a strip sequence written as
/// a word, one entry per letter and row, letter after letter, each entry plus one: the
/// number of boxes of that letter in that row.
pub open spec fn strip_entry(w: Seq<usize>, n: int, k: int, r: int) -> int {
    w[k * n + r] - 1
}

/// The boxes of letter `k + 1` in the rows before `r`.
pub open spec fn letter_rows(w: Seq<usize>, n: int, k: int, r: int) -> int
    decreases r,
{
    if r <= 0 {
        0
    } else {
        letter_rows(w, n, k, r - 1) + strip_entry(w, n, k, r - 1)
    }
}

/// The length of row `r` of `lam` with the boxes of the letters before `k + 1` added.
pub open spec fn row_before(lam: Seq<usize>, w: Seq<usize>, n: int, k: int, r: int) -> int
    decreases k,
{
    if k <= 0 {
        part_at(lam, r)
    } else {
        row_before(lam, w, n, k - 1, r) + strip_entry(w, n, k - 1, r)
    }
}

/// The `n` rows once the letters before `k + 1` are added.
pub open spec fn rows_after(lam: Seq<usize>, w: Seq<usize>, n: int, k: int) -> Seq<usize> {
    Seq::new(n as nat, |r: int| row_before(lam, w, n, k, r) as usize)
}

/// The word writes a Littlewood-Richardson strip sequence that carries `lam` to `nu` in
/// `n` rows: letter `k + 1` adds `mu[k]` boxes; in no row do its boxes reach past the
/// length that the row above had before it (the boxes of one letter form a horizontal
/// strip); in rows `0..i` there are never more boxes of letter `k + 1` than boxes of
/// letter `k` in rows `0..i - 1` (the lattice condition); and the rows at the end, with
/// empty rows dropped, are `nu`.
pub open spec fn strip_word(lam: Seq<usize>, mu: Seq<usize>, nu: Seq<usize>, n: int) -> spec_fn(
    Seq<usize>,
) -> bool {
    |w: Seq<usize>|
        {
            &&& forall|j: int| 0 <= j < mu.len() ==> #[trigger] letter_rows(w, n, j, n) == mu[j]
            &&& forall|j: int, i: int|
                0 <= j < mu.len() && 1 <= i < n ==> row_before(lam, w, n, j, i) + #[trigger] strip_entry(
                    w,
                    n,
                    j,
                    i,
                ) <= row_before(lam, w, n, j, i - 1)
            &&& forall|j: int, i: int|
                1 <= j < mu.len() && 1 <= i <= n ==> #[trigger] letter_rows(w, n, j, i) <= letter_rows(
                    w,
                    n,
                    j - 1,
                    i - 1,
                )
            &&& trim_zeros(rows_after(lam, w, n, mu.len() as int)) == nu
        }
}

/// `w` starts with `pre`.
pub open spec fn extends(w: Seq<usize>, pre: Seq<usize>) -> bool {
    pre.len() <= w.len() && forall|i: int| 0 <= i < pre.len() ==> #[trigger] w[i] == pre[i]
}

/// What the search holds after the prefix `pre` of a strip word: the letter `k + 1` is
/// placed in the rows before `r`.
spec fn state_shape(lam: Seq<usize>, pre: Seq<usize>, n: int, k: int, r: int) -> Seq<usize> {
    Seq::new(
        n as nat,
        |i: int| (row_before(lam, pre, n, k, i) + if i < r { strip_entry(pre, n, k, i) } else { 0 }) as usize,
    )
}

spec fn state_placed(pre: Seq<usize>, n: int, k: int, r: int) -> Seq<usize> {
    Seq::new(n as nat, |i: int| (if i < r { strip_entry(pre, n, k, i) } else { 0 }) as usize)
}

spec fn state_room(pre: Seq<usize>, n: int, k: int) -> Seq<usize> {
    if k == 0 {
        Seq::new(n as nat, |i: int| usize::MAX)
    } else {
        Seq::new(n as nat, |i: int| letter_rows(pre, n, k - 1, i) as usize)
    }
}

/// The prefix `pre`, which ends before letter `k + 1`, row `r`, breaks none of the
/// conditions of a strip word that it decides.
spec fn prefix_ok(lam: Seq<usize>, mu: Seq<usize>, n: int, pre: Seq<usize>, k: int, r: int) -> bool {
    &&& forall|i: int| 0 <= i < pre.len() ==> 1 <= #[trigger] pre[i]
    &&& forall|j: int| 0 <= j < k ==> #[trigger] letter_rows(pre, n, j, n) == mu[j]
    &&& forall|j: int, i: int|
        0 <= j <= k && 1 <= i < n && (j < k || i < r) ==> row_before(lam, pre, n, j, i)
            + #[trigger] strip_entry(pre, n, j, i) <= row_before(lam, pre, n, j, i - 1)
    &&& forall|j: int, i: int|
        1 <= j <= k && 1 <= i <= n && (j < k || i <= r) ==> #[trigger] letter_rows(pre, n, j, i)
            <= letter_rows(pre, n, j - 1, i - 1)
    &&& letter_rows(pre, n, k, r) <= mu[k]
}

proof fn lemma_index(n: int, k: int, r: int, m: int)
    requires
        n >= 1,
        0 <= k < m,
        0 <= r < n,
    ensures
        k * n + r < (k + 1) * n,
        (k + 1) * n <= m * n,
        (k + 1) * n == k * n + n,
        0 <= k * n,
{
    assert((k + 1) * n == k * n + n) by (nonlinear_arith);
    assert((k + 1) * n <= m * n) by (nonlinear_arith)
        requires
            k + 1 <= m,
            n >= 1,
    ;
    assert(0 <= k * n) by (nonlinear_arith)
        requires
            k >= 0,
            n >= 1,
    ;
}

proof fn lemma_letter_rows_agree(w: Seq<usize>, pre: Seq<usize>, n: int, j: int, r: int)
    requires
        extends(w, pre),
        n >= 1,
        0 <= j,
        0 <= r <= n,
        j * n + r <= pre.len(),
    ensures
        letter_rows(w, n, j, r) == letter_rows(pre, n, j, r),
    decreases r,
{
    if r > 0 {
        lemma_letter_rows_agree(w, pre, n, j, r - 1);
        assert(w[j * n + r - 1] == pre[j * n + r - 1]);
    }
}

proof fn lemma_row_before_agree(lam: Seq<usize>, w: Seq<usize>, pre: Seq<usize>, n: int, j: int, i: int)
    requires
        extends(w, pre),
        n >= 1,
        0 <= j,
        0 <= i < n,
        j * n <= pre.len(),
    ensures
        row_before(lam, w, n, j, i) == row_before(lam, pre, n, j, i),
    decreases j,
{
    if j > 0 {
        assert((j - 1) * n + n == j * n) by (nonlinear_arith);
        assert(0 <= (j - 1) * n) by (nonlinear_arith)
            requires
                j >= 1,
                n >= 1,
        ;
        lemma_row_before_agree(lam, w, pre, n, j - 1, i);
        assert(w[(j - 1) * n + i] == pre[(j - 1) * n + i]);
    }
}

/// With every entry of the word at least 1, the boxes of a letter only accumulate.
pub proof fn lemma_letter_rows_mono(w: Seq<usize>, n: int, j: int, a: int, b: int)
    requires
        n >= 1,
        0 <= j,
        0 <= a <= b <= n,
        j * n + b <= w.len(),
        forall|i: int| 0 <= i < w.len() ==> 1 <= #[trigger] w[i],
    ensures
        letter_rows(w, n, j, a) <= letter_rows(w, n, j, b),
        a < b ==> letter_rows(w, n, j, a) + strip_entry(w, n, j, a) <= letter_rows(w, n, j, b),
    decreases b - a,
{
    if a < b {
        assert(0 <= j * n) by (nonlinear_arith)
            requires
                j >= 0,
                n >= 1,
        ;
        assert(1 <= w[j * n + b - 1]);
        lemma_letter_rows_mono(w, n, j, a, b - 1);
        if a < b - 1 {
            assert(1 <= w[j * n + a]);
        }
    }
}


proof fn lemma_base_nonincreasing(lam: Seq<usize>, mu: Seq<usize>, n: int, pre: Seq<usize>, k: int, r: int)
    requires
        is_partition(lam),
        n >= 1,
        0 <= k < mu.len(),
        0 <= r <= n,
        pre.len() == k * n + r,
        prefix_ok(lam, mu, n, pre, k, r),
    ensures
        forall|i: int| 1 <= i < n ==> #[trigger] row_before(lam, pre, n, k, i) <= row_before(lam, pre, n, k, i - 1),
{
    assert forall|i: int| 1 <= i < n implies #[trigger] row_before(lam, pre, n, k, i) <= row_before(lam, pre, n, k, i - 1) by {
        lemma_base_row(lam, mu, n, pre, k, r, k, i);
    }
}

proof fn lemma_base_row(lam: Seq<usize>, mu: Seq<usize>, n: int, pre: Seq<usize>, k: int, r: int, j: int, i: int)
    requires
        is_partition(lam),
        n >= 1,
        0 <= k < mu.len(),
        0 <= r <= n,
        pre.len() == k * n + r,
        prefix_ok(lam, mu, n, pre, k, r),
        0 <= j <= k,
        1 <= i < n,
    ensures
        row_before(lam, pre, n, j, i) <= row_before(lam, pre, n, j, i - 1),
    decreases j,
{
    if j == 0 {
        if i < lam.len() {
            assert(lam[i] <= lam[i - 1]);
        }
    } else {
        lemma_base_row(lam, mu, n, pre, k, r, j - 1, i);
        lemma_index(n, j - 1, i - 1, k);
        assert(1 <= pre[(j - 1) * n + i - 1]);
        assert(row_before(lam, pre, n, j - 1, i) + strip_entry(pre, n, j - 1, i) <= row_before(lam, pre, n, j - 1, i - 1));
    }
}

/// Under the prefix, the rows and counts stay within `|lam| + |mu|`.
proof fn lemma_rows_bounded(lam: Seq<usize>, mu: Seq<usize>, n: int, pre: Seq<usize>, k: int, r: int, j: int, i: int)
    requires
        is_partition(lam),
        is_partition(mu),
        n >= 1,
        0 <= k < mu.len(),
        0 <= r <= n,
        pre.len() == k * n + r,
        prefix_ok(lam, mu, n, pre, k, r),
        0 <= j <= k,
        0 <= i < n,
    ensures
        0 <= row_before(lam, pre, n, j, i) <= part_at(lam, i) + prefix_total(mu, j),
    decreases j,
{
    if j == 0 {
        assert(mu.take(0) =~= Seq::<usize>::empty());
    } else {
        lemma_rows_bounded(lam, mu, n, pre, k, r, j - 1, i);
        lemma_index(n, j - 1, i, k);
        lemma_letter_rows_mono(pre, n, j - 1, 0, i);
        lemma_letter_rows_mono(pre, n, j - 1, i, n);
        assert(letter_rows(pre, n, j - 1, n) == mu[j - 1]);
        lemma_prefix_step(mu, j - 1);
    }
}

/// Every entry and sum the search computes from the prefix is at most `|lam| + |mu|`.
proof fn lemma_state_bounds(lam: Seq<usize>, mu: Seq<usize>, n: int, pre: Seq<usize>, k: int, r: int)
    requires
        is_partition(lam),
        is_partition(mu),
        seq_sum(lam) + seq_sum(mu) <= usize::MAX,
        n >= 1,
        0 <= k < mu.len(),
        0 <= r <= n,
        pre.len() == k * n + r,
        prefix_ok(lam, mu, n, pre, k, r),
    ensures
        forall|i: int| 0 <= i < n ==> 0 <= #[trigger] row_before(lam, pre, n, k, i) && row_before(lam, pre, n, k, i)
            + mu[k] <= seq_sum(lam) + seq_sum(mu),
        forall|i: int| 0 <= i < r ==> 0 <= #[trigger] strip_entry(pre, n, k, i) <= mu[k],
        forall|i: int| 0 <= i <= r ==> 0 <= #[trigger] letter_rows(pre, n, k, i) <= mu[k],
        k > 0 ==> forall|i: int| 0 <= i <= n ==> 0 <= #[trigger] letter_rows(pre, n, k - 1, i) <= mu[k - 1],
        mu[k] <= seq_sum(mu),
{
    lemma_part_le_sum(mu, k);
    lemma_prefix_step(mu, k);
    lemma_prefix_mono(mu, k + 1, mu.len() as int);
    assert(mu.take(mu.len() as int) =~= mu);
    lemma_index(n, k, 0, mu.len() as int);
    assert forall|i: int| 0 <= i < n implies 0 <= #[trigger] row_before(lam, pre, n, k, i) && row_before(lam, pre, n, k, i)
        + mu[k] <= seq_sum(lam) + seq_sum(mu) by {
        lemma_rows_bounded(lam, mu, n, pre, k, r, k, i);
        if i < lam.len() {
            lemma_part_le_sum(lam, i);
        }
        lemma_seq_sum_nonneg(lam);
    }
    assert forall|i: int| 0 <= i < r implies 0 <= #[trigger] strip_entry(pre, n, k, i) <= mu[k] by {
        lemma_letter_rows_mono(pre, n, k, 0, i);
        lemma_letter_rows_mono(pre, n, k, i, r);
    }
    assert forall|i: int| 0 <= i <= r implies 0 <= #[trigger] letter_rows(pre, n, k, i) <= mu[k] by {
        lemma_letter_rows_mono(pre, n, k, 0, i);
        lemma_letter_rows_mono(pre, n, k, i, r);
    }
    if k > 0 {
        lemma_index(n, k - 1, 0, k);
        assert forall|i: int| 0 <= i <= n implies 0 <= #[trigger] letter_rows(pre, n, k - 1, i) <= mu[k - 1] by {
            lemma_letter_rows_mono(pre, n, k - 1, 0, i);
            lemma_letter_rows_mono(pre, n, k - 1, i, n);
        }
    }
}


/// `t` entries of 1: letters with no box in a row.
pub open spec fn ones(t: int) -> Seq<usize> {
    Seq::new(t as nat, |i: int| 1usize)
}

/// A completion of a prefix starts with the prefix and has every entry at least 1.
proof fn lemma_completion(w: Seq<usize>, pre: Seq<usize>, len: nat, b: nat, ok: spec_fn(Seq<usize>) -> bool)
    requires
        completes(w, pre, len, b, ok),
        forall|i: int| 0 <= i < pre.len() ==> 1 <= #[trigger] pre[i],
    ensures
        extends(w, pre),
        forall|i: int| 0 <= i < w.len() ==> 1 <= #[trigger] w[i],
        ok(w),
{
    assert forall|i: int| 0 <= i < pre.len() implies #[trigger] w[i] == pre[i] by {
        assert(w.subrange(0, pre.len() as int)[i] == w[i]);
    }
    assert forall|i: int| 0 <= i < w.len() implies 1 <= #[trigger] w[i] by {
        if i < pre.len() {
            assert(w[i] == pre[i]);
        }
    }
}

/// A sequence with no element listed is empty.
proof fn lemma_none_listed(ws: Seq<Seq<usize>>)
    requires
        forall|w: Seq<usize>| !(#[trigger] ws.contains(w)),
    ensures
        ws.len() == 0,
{
    if ws.len() > 0 {
        assert(ws.contains(ws[0]));
    }
}

/// Once letter `k + 1` has all its boxes, the rest of its rows hold none.
proof fn lemma_pad(lam: Seq<usize>, mu: Seq<usize>, nu: Seq<usize>, n: int, pre: Seq<usize>, k: int, r: int)
    requires
        n >= 1,
        0 <= k < mu.len(),
        0 <= r <= n,
        pre.len() == k * n + r,
        forall|i: int| 0 <= i < pre.len() ==> 1 <= #[trigger] pre[i],
        letter_rows(pre, n, k, r) == mu[k],
        seq_sum(mu) + 1 <= usize::MAX,
    ensures
        words_from(pre, (mu.len() * n) as nat, (seq_sum(mu) + 1) as nat, strip_word(lam, mu, nu, n)).len()
            == words_from(pre + ones(n - r), (mu.len() * n) as nat, (seq_sum(mu) + 1) as nat, strip_word(lam, mu, nu, n)).len(),
    decreases n - r,
{
    let len = (mu.len() * n) as nat;
    let b = (seq_sum(mu) + 1) as nat;
    let ok = strip_word(lam, mu, nu, n);
    lemma_seq_sum_nonneg(mu);
    if r == n {
        assert(pre + ones(n - r) =~= pre);
    } else {
        lemma_index(n, k, r, mu.len() as int);
        let p1 = pre.push(1usize);
        assert(words_from(pre, len, b, ok) == words_with_next(pre, len, b, ok, 1));
        assert(words_with_next(pre, len, b, ok, 1) == words_from(p1, len, b, ok) + words_with_next(pre, len, b, ok, 2));
        lemma_words_with_next(pre, len, b, ok, 2);
        assert forall|w: Seq<usize>| !(#[trigger] words_with_next(pre, len, b, ok, 2).contains(w)) by {
            if words_with_next(pre, len, b, ok, 2).contains(w) {
                lemma_completion(w, pre, len, b, ok);
                lemma_letter_rows_agree(w, pre, n, k, r);
                lemma_index(n, k, r, mu.len() as int);
                lemma_letter_rows_mono(w, n, k, r, n);
                assert(letter_rows(w, n, k, n) == mu[k]);
            }
        }
        lemma_none_listed(words_with_next(pre, len, b, ok, 2));
        assert(extends(p1, pre));
        lemma_letter_rows_agree(p1, pre, n, k, r);
        assert(letter_rows(p1, n, k, r + 1) == mu[k]);
        assert forall|i: int| 0 <= i < p1.len() implies 1 <= #[trigger] p1[i] by {
            if i < pre.len() {
                assert(p1[i] == pre[i]);
            }
        }
        lemma_pad(lam, mu, nu, n, p1, k, r + 1);
        assert(p1 + ones(n - (r + 1)) =~= pre + ones(n - r));
    }
}


proof fn lemma_room_sums(pre: Seq<usize>, full: Seq<usize>, n: int, k: int, r: int, top: int, i: int)
    requires
        n >= 1,
        0 <= r <= n,
        0 <= i <= n,
        0 <= k,
        k * n + n <= full.len(),
        forall|t: int| 0 <= t < n ==> #[trigger] strip_entry(full, n, k, t) == if t < r {
            strip_entry(pre, n, k, t)
        } else {
            0
        },
        forall|t: int| 0 <= t < r ==> 0 <= #[trigger] strip_entry(pre, n, k, t) <= top,
        top <= usize::MAX,
    ensures
        prefix_total(state_placed(pre, n, k, r), i) == letter_rows(full, n, k, i),
    decreases i,
{
    let placed = state_placed(pre, n, k, r);
    if i == 0 {
        assert(placed.take(0) =~= Seq::<usize>::empty());
    } else {
        lemma_room_sums(pre, full, n, k, r, top, i - 1);
        lemma_prefix_step(placed, i - 1);
        assert(strip_entry(full, n, k, i - 1) == placed[i - 1]);
    }
}

/// The facts about the prefix once the rows left to letter `k + 1` are filled with no box.
proof fn lemma_letter_done(lam: Seq<usize>, mu: Seq<usize>, n: int, pre: Seq<usize>, k: int, r: int)
    requires
        is_partition(lam),
        is_partition(mu),
        seq_sum(lam) + seq_sum(mu) <= usize::MAX,
        n >= 1,
        0 <= k < mu.len(),
        0 <= r <= n,
        pre.len() == k * n + r,
        prefix_ok(lam, mu, n, pre, k, r),
        letter_rows(pre, n, k, r) == mu[k],
    ensures
        ({
            let full = pre + ones(n - r);
            &&& full.len() == (k + 1) * n
            &&& forall|i: int| 0 <= i < full.len() ==> 1 <= #[trigger] full[i]
            &&& forall|j: int| 0 <= j <= k ==> #[trigger] letter_rows(full, n, j, n) == mu[j]
            &&& forall|j: int, i: int|
                0 <= j <= k && 1 <= i < n ==> row_before(lam, full, n, j, i) + #[trigger] strip_entry(full, n, j, i)
                    <= row_before(lam, full, n, j, i - 1)
            &&& forall|j: int, i: int|
                1 <= j <= k && 1 <= i <= n ==> #[trigger] letter_rows(full, n, j, i) <= letter_rows(full, n, j - 1, i - 1)
            &&& rows_after(lam, full, n, k + 1) == state_shape(lam, pre, n, k, r)
            &&& Seq::new(n as nat, |i: int| prefix_total(state_placed(pre, n, k, r), i) as usize) == Seq::new(
                n as nat,
                |i: int| letter_rows(full, n, k, i) as usize,
            )
        }),
{
    let full = pre + ones(n - r);
    lemma_index(n, k, 0, mu.len() as int);
    assert(full.len() == (k + 1) * n);
    assert(extends(full, pre));
    assert forall|i: int| 0 <= i < full.len() implies 1 <= #[trigger] full[i] by {
        if i < pre.len() {
            assert(full[i] == pre[i]);
        }
    }
    lemma_state_bounds(lam, mu, n, pre, k, r);
    lemma_base_nonincreasing(lam, mu, n, pre, k, r);
    // the entries of letter k + 1
    assert forall|t: int| 0 <= t < n implies #[trigger] strip_entry(full, n, k, t) == if t < r {
        strip_entry(pre, n, k, t)
    } else {
        0
    } by {
        if t < r {
            assert(full[k * n + t] == pre[k * n + t]);
        } else {
            assert(full[k * n + t] == 1);
        }
    }
    // earlier letters and rows agree with the prefix
    assert forall|j: int, i: int| 0 <= j < k && 0 <= i <= n implies #[trigger] letter_rows(full, n, j, i)
        == letter_rows(pre, n, j, i) by {
        lemma_index(n, j, 0, k);
        lemma_letter_rows_agree(full, pre, n, j, i);
    }
    assert forall|j: int, i: int| 0 <= j <= k && 0 <= i < n implies #[trigger] row_before(lam, full, n, j, i)
        == row_before(lam, pre, n, j, i) by {
        assert(j * n <= k * n) by (nonlinear_arith)
            requires
                j <= k,
                n >= 1,
        ;
        lemma_row_before_agree(lam, full, pre, n, j, i);
    }
    assert forall|j: int, i: int| 0 <= j < k && 0 <= i < n implies #[trigger] strip_entry(full, n, j, i)
        == strip_entry(pre, n, j, i) by {
        lemma_index(n, j, i, k);
        assert(full[j * n + i] == pre[j * n + i]);
    }
    assert forall|i: int| 0 <= i <= r implies #[trigger] letter_rows(full, n, k, i) == letter_rows(pre, n, k, i) by {
        lemma_letter_rows_agree(full, pre, n, k, i);
    }
    assert forall|i: int| r <= i <= n implies #[trigger] letter_rows(full, n, k, i) == mu[k] by {
        lemma_letters_flat(full, n, k, r, i);
    }
    assert forall|j: int| 0 <= j <= k implies #[trigger] letter_rows(full, n, j, n) == mu[j] by {
        if j < k {
            assert(letter_rows(pre, n, j, n) == mu[j]);
        }
    }
    assert forall|j: int, i: int|
        0 <= j <= k && 1 <= i < n implies row_before(lam, full, n, j, i) + #[trigger] strip_entry(full, n, j, i)
            <= row_before(lam, full, n, j, i - 1) by {
        if j < k || i < r {
            assert(row_before(lam, pre, n, j, i) + strip_entry(pre, n, j, i) <= row_before(lam, pre, n, j, i - 1));
        } else {
            assert(row_before(lam, pre, n, k, i) <= row_before(lam, pre, n, k, i - 1));
        }
    }
    assert forall|j: int, i: int|
        1 <= j <= k && 1 <= i <= n implies #[trigger] letter_rows(full, n, j, i) <= letter_rows(full, n, j - 1, i - 1) by {
        if j < k || i <= r {
            assert(letter_rows(pre, n, j, i) <= letter_rows(pre, n, j - 1, i - 1));
        } else {
            // every box of this letter lies in rows before r, and r >= 1
            assert(r >= 1) by {
                if r == 0 {
                    assert(mu[k] > 0);
                }
            }
            assert(letter_rows(pre, n, k, r) <= letter_rows(pre, n, k - 1, r - 1));
            lemma_index(n, k - 1, 0, k);
            lemma_letter_rows_mono(pre, n, k - 1, r - 1, i - 1);
        }
    }
    assert(rows_after(lam, full, n, k + 1) =~= state_shape(lam, pre, n, k, r)) by {
        assert forall|i: int| 0 <= i < n implies #[trigger] rows_after(lam, full, n, k + 1)[i] == state_shape(
            lam,
            pre,
            n,
            k,
            r,
        )[i] by {
            assert(row_before(lam, full, n, k + 1, i) == row_before(lam, full, n, k, i) + strip_entry(full, n, k, i));
        }
    }
    assert forall|i: int| 0 <= i < n implies #[trigger] prefix_total(state_placed(pre, n, k, r), i)
        == letter_rows(full, n, k, i) by {
        lemma_room_sums(pre, full, n, k, r, mu[k] as int, i);
    }
    assert(Seq::new(n as nat, |i: int| prefix_total(state_placed(pre, n, k, r), i) as usize) =~= Seq::new(
        n as nat,
        |i: int| letter_rows(full, n, k, i) as usize,
    ));
}

proof fn lemma_letters_flat(w: Seq<usize>, n: int, k: int, r: int, i: int)
    requires
        n >= 1,
        0 <= k,
        0 <= r <= i <= n,
        forall|t: int| r <= t < n ==> #[trigger] strip_entry(w, n, k, t) == 0,
    ensures
        letter_rows(w, n, k, i) == letter_rows(w, n, k, r),
    decreases i - r,
{
    if i > r {
        lemma_letters_flat(w, n, k, r, i - 1);
    }
}


/// The prefix `p1` extends `pre` by the entry for letter `k + 1`, row `r`; everything the
/// prefix decided stays as it was.
proof fn lemma_extend_agrees(lam: Seq<usize>, pre: Seq<usize>, p1: Seq<usize>, n: int, k: int, r: int)
    requires
        n >= 1,
        0 <= k,
        0 <= r < n,
        pre.len() == k * n + r,
        extends(p1, pre),
        p1.len() == pre.len() + 1,
    ensures
        forall|j: int, i: int| 0 <= j < k && 0 <= i <= n ==> #[trigger] letter_rows(p1, n, j, i) == letter_rows(pre, n, j, i),
        forall|i: int| 0 <= i <= r ==> #[trigger] letter_rows(p1, n, k, i) == letter_rows(pre, n, k, i),
        letter_rows(p1, n, k, r + 1) == letter_rows(pre, n, k, r) + strip_entry(p1, n, k, r),
        forall|j: int, i: int| 0 <= j <= k && 0 <= i < n ==> #[trigger] row_before(lam, p1, n, j, i) == row_before(lam, pre, n, j, i),
        forall|j: int, i: int| 0 <= j < k && 0 <= i < n ==> #[trigger] strip_entry(p1, n, j, i) == strip_entry(pre, n, j, i),
        forall|i: int| 0 <= i < r ==> #[trigger] strip_entry(p1, n, k, i) == strip_entry(pre, n, k, i),
{
    lemma_index(n, k, r, k + 1);
    lemma_letter_rows_agree(p1, pre, n, k, r);
    assert forall|j: int, i: int| 0 <= j < k && 0 <= i <= n implies #[trigger] letter_rows(p1, n, j, i) == letter_rows(pre, n, j, i) by {
        lemma_index(n, j, 0, k);
        lemma_letter_rows_agree(p1, pre, n, j, i);
    }
    assert forall|i: int| 0 <= i <= r implies #[trigger] letter_rows(p1, n, k, i) == letter_rows(pre, n, k, i) by {
        lemma_letter_rows_agree(p1, pre, n, k, i);
    }
    assert forall|j: int, i: int| 0 <= j <= k && 0 <= i < n implies #[trigger] row_before(lam, p1, n, j, i) == row_before(lam, pre, n, j, i) by {
        assert(j * n <= k * n) by (nonlinear_arith)
            requires
                j <= k,
                n >= 1,
        ;
        lemma_row_before_agree(lam, p1, pre, n, j, i);
    }
    assert forall|j: int, i: int| 0 <= j < k && 0 <= i < n implies #[trigger] strip_entry(p1, n, j, i) == strip_entry(pre, n, j, i) by {
        lemma_index(n, j, i, k);
        assert(p1[j * n + i] == pre[j * n + i]);
    }
    assert forall|i: int| 0 <= i < r implies #[trigger] strip_entry(p1, n, k, i) == strip_entry(pre, n, k, i) by {
        assert(p1[k * n + i] == pre[k * n + i]);
    }
}

/// From this point of the search, the strip search counts exactly the strip words that
/// complete the prefix read so far (those whose next entry is at least `from + 1`, while
/// the letter still has boxes and rows to place them in).
spec fn search_matches(lam: Seq<usize>, mu: Seq<usize>, nu: Seq<usize>, n: int, pre: Seq<usize>, k: int, r: int, from: int) -> bool {
    let left = mu[k] - letter_rows(pre, n, k, r);
    let len = (mu.len() * n) as nat;
    let b = (seq_sum(mu) + 1) as nat;
    let ok = strip_word(lam, mu, nu, n);
    strip_completions(
        Some(nu),
        mu,
        k,
        r,
        left,
        from,
        state_shape(lam, pre, n, k, r),
        rows_after(lam, pre, n, k),
        state_placed(pre, n, k, r),
        state_room(pre, n, k),
    ) == if left > 0 && r < n {
        words_with_next(pre, len, b, ok, (from + 1) as nat).len()
    } else {
        words_from(pre, len, b, ok).len()
    }
}

/// A point of the search that the prefix `pre` reaches.
spec fn search_point(lam: Seq<usize>, mu: Seq<usize>, n: int, pre: Seq<usize>, k: int, r: int, from: int) -> bool {
    &&& is_partition(lam)
    &&& is_partition(mu)
    &&& seq_sum(lam) + seq_sum(mu) <= usize::MAX
    &&& seq_sum(mu) < usize::MAX
    &&& n >= 1
    &&& 0 <= k < mu.len()
    &&& 0 <= r <= n
    &&& 0 <= from
    &&& pre.len() == k * n + r
    &&& prefix_ok(lam, mu, n, pre, k, r)
}

proof fn lemma_strip_state(lam: Seq<usize>, mu: Seq<usize>, nu: Seq<usize>, n: int, pre: Seq<usize>, k: int, r: int, from: int)
    requires
        search_point(lam, mu, n, pre, k, r, from),
    ensures
        search_matches(lam, mu, nu, n, pre, k, r, from),
    decreases mu.len() - k, n - r, mu[k] - letter_rows(pre, n, k, r) + 1 - from, 1int,
{
    let left = mu[k] - letter_rows(pre, n, k, r);
    lemma_state_bounds(lam, mu, n, pre, k, r);
    if left == 0 {
        lemma_case_done(lam, mu, nu, n, pre, k, r, from);
    } else if r == n {
        lemma_case_end(lam, mu, nu, n, pre, k, r, from);
    } else {
        lemma_case_row(lam, mu, nu, n, pre, k, r, from);
    }
}

/// The letter has all its boxes: the rest of its rows hold none, and the next letter
/// starts (or the word ends).
#[verifier::spinoff_prover]
proof fn lemma_case_done(lam: Seq<usize>, mu: Seq<usize>, nu: Seq<usize>, n: int, pre: Seq<usize>, k: int, r: int, from: int)
    requires
        search_point(lam, mu, n, pre, k, r, from),
        letter_rows(pre, n, k, r) == mu[k],
    ensures
        search_matches(lam, mu, nu, n, pre, k, r, from),
    decreases mu.len() - k, n - r, mu[k] - letter_rows(pre, n, k, r) + 1 - from, 0int,
{
    let len = (mu.len() * n) as nat;
    let b = (seq_sum(mu) + 1) as nat;
    let ok = strip_word(lam, mu, nu, n);
    let shape = state_shape(lam, pre, n, k, r);
    let placed = state_placed(pre, n, k, r);
    lemma_state_bounds(lam, mu, n, pre, k, r);
    lemma_seq_sum_nonneg(mu);
    lemma_index(n, k, 0, mu.len() as int);
    let full = pre + ones(n - r);
    lemma_pad(lam, mu, nu, n, pre, k, r);
    lemma_letter_done(lam, mu, n, pre, k, r);
    if k + 1 == mu.len() {
        assert(full.len() == len);
        assert(words_from(full, len, b, ok) == if ok(full) { seq![full] } else { Seq::<Seq<usize>>::empty() });
        assert(ok(full) == (trim_zeros(shape) == nu));
    } else {
        let k1 = k + 1;
        lemma_index(n, k1, 0, mu.len() as int);
        assert(prefix_ok(lam, mu, n, full, k1, 0)) by {
            assert(letter_rows(full, n, k1, 0) == 0);
        }
        lemma_strip_state(lam, mu, nu, n, full, k1, 0, 0);
        assert(state_shape(lam, full, n, k1, 0) =~= shape) by {
            assert forall|i: int| 0 <= i < n implies #[trigger] state_shape(lam, full, n, k1, 0)[i] == shape[i] by {
                assert(rows_after(lam, full, n, k1)[i] == shape[i]);
            }
        }
        assert(state_placed(full, n, k1, 0) =~= Seq::new(shape.len(), |i: int| 0usize));
        assert(state_room(full, n, k1) =~= Seq::new(shape.len(), |i: int| prefix_total(placed, i) as usize));
        assert(words_from(full, len, b, ok) == words_with_next(full, len, b, ok, 1));
    }
}

/// Boxes of the letter are left but no rows: no strip word completes the prefix.
proof fn lemma_case_end(lam: Seq<usize>, mu: Seq<usize>, nu: Seq<usize>, n: int, pre: Seq<usize>, k: int, r: int, from: int)
    requires
        search_point(lam, mu, n, pre, k, r, from),
        letter_rows(pre, n, k, r) < mu[k],
        r == n,
    ensures
        search_matches(lam, mu, nu, n, pre, k, r, from),
{
    let len = (mu.len() * n) as nat;
    let b = (seq_sum(mu) + 1) as nat;
    let ok = strip_word(lam, mu, nu, n);
    lemma_seq_sum_nonneg(mu);
    lemma_index(n, k, 0, mu.len() as int);
    lemma_words_from(pre, len, b, ok);
    assert forall|w: Seq<usize>| !(#[trigger] words_from(pre, len, b, ok).contains(w)) by {
        if words_from(pre, len, b, ok).contains(w) {
            lemma_completion(w, pre, len, b, ok);
            lemma_letter_rows_agree(w, pre, n, k, n);
            assert(letter_rows(w, n, k, n) == mu[k]);
        }
    }
    lemma_none_listed(words_from(pre, len, b, ok));
}

/// The next entry of the letter in row `r` is too large: no strip word completes the
/// prefix with it, nor with any larger one.
#[verifier::spinoff_prover]
proof fn lemma_case_refused(lam: Seq<usize>, mu: Seq<usize>, nu: Seq<usize>, n: int, pre: Seq<usize>, k: int, r: int, from: int)
    requires
        search_point(lam, mu, n, pre, k, r, from),
        letter_rows(pre, n, k, r) < mu[k],
        r < n,
        ({
            let left = mu[k] - letter_rows(pre, n, k, r);
            let base = rows_after(lam, pre, n, k);
            let gap = if r == 0 { left } else { base[r - 1] - base[r] };
            from > left || from > gap || mu[k] - left + from > state_room(pre, n, k)[r]
        }),
    ensures
        words_with_next(pre, (mu.len() * n) as nat, (seq_sum(mu) + 1) as nat, strip_word(lam, mu, nu, n), (from + 1) as nat).len() == 0,
{
    let left = mu[k] - letter_rows(pre, n, k, r);
    let len = (mu.len() * n) as nat;
    let b = (seq_sum(mu) + 1) as nat;
    let ok = strip_word(lam, mu, nu, n);
    let base = rows_after(lam, pre, n, k);
    let room = state_room(pre, n, k);
    let gap = if r == 0 { left } else { base[r - 1] - base[r] };
    lemma_state_bounds(lam, mu, n, pre, k, r);
    lemma_seq_sum_nonneg(mu);
    lemma_index(n, k, r, mu.len() as int);
    if r > 0 {
        assert(base[r - 1] == row_before(lam, pre, n, k, r - 1));
        assert(base[r] == row_before(lam, pre, n, k, r));
    }
    let v = (from + 1) as nat;
    if v <= b + 1 {
        lemma_words_with_next(pre, len, b, ok, v);
        assert forall|w: Seq<usize>| !(#[trigger] words_with_next(pre, len, b, ok, v).contains(w)) by {
            if words_with_next(pre, len, b, ok, v).contains(w) {
                lemma_completion(w, pre, len, b, ok);
                lemma_letter_rows_agree(w, pre, n, k, r);
                lemma_letter_rows_mono(w, n, k, r, n);
                lemma_letter_rows_mono(w, n, k, r, r + 1);
                assert(letter_rows(w, n, k, n) == mu[k]);
                assert(strip_entry(w, n, k, r) >= from);
                if from > left {
                } else if from > gap {
                    lemma_row_before_agree(lam, w, pre, n, k, r);
                    lemma_row_before_agree(lam, w, pre, n, k, r - 1);
                    assert(row_before(lam, w, n, k, r) + strip_entry(w, n, k, r) <= row_before(lam, w, n, k, r - 1));
                } else {
                    assert(k > 0);
                    lemma_index(n, k - 1, 0, k);
                    lemma_letter_rows_agree(w, pre, n, k - 1, r);
                    assert(letter_rows(w, n, k, r + 1) <= letter_rows(w, n, k - 1, r));
                    assert(room[r] == letter_rows(pre, n, k - 1, r));
                }
            }
        }
        lemma_none_listed(words_with_next(pre, len, b, ok, v));
    }
}

/// The letter still has boxes and rows: the search tries each amount for row `r` in turn.
#[verifier::spinoff_prover]
#[verifier::rlimit(60)]
proof fn lemma_case_row(lam: Seq<usize>, mu: Seq<usize>, nu: Seq<usize>, n: int, pre: Seq<usize>, k: int, r: int, from: int)
    requires
        search_point(lam, mu, n, pre, k, r, from),
        letter_rows(pre, n, k, r) < mu[k],
        r < n,
    ensures
        search_matches(lam, mu, nu, n, pre, k, r, from),
    decreases mu.len() - k, n - r, mu[k] - letter_rows(pre, n, k, r) + 1 - from, 0int,
{
    let left = mu[k] - letter_rows(pre, n, k, r);
    let len = (mu.len() * n) as nat;
    let b = (seq_sum(mu) + 1) as nat;
    let ok = strip_word(lam, mu, nu, n);
    let shape = state_shape(lam, pre, n, k, r);
    let base = rows_after(lam, pre, n, k);
    let placed = state_placed(pre, n, k, r);
    let room = state_room(pre, n, k);
    lemma_state_bounds(lam, mu, n, pre, k, r);
    lemma_seq_sum_nonneg(mu);
    lemma_index(n, k, r, mu.len() as int);
    let gap = if r == 0 { left } else { base[r - 1] - base[r] };
    if r > 0 {
        assert(base[r - 1] == row_before(lam, pre, n, k, r - 1));
        assert(base[r] == row_before(lam, pre, n, k, r));
    }
    let v = (from + 1) as nat;
    if from > left || from > gap || mu[k] - left + from > room[r] {
        lemma_case_refused(lam, mu, nu, n, pre, k, r, from);
    } else {
        let p1 = pre.push(v as usize);
        assert(extends(p1, pre));
        lemma_extend_agrees(lam, pre, p1, n, k, r);
        assert(strip_entry(p1, n, k, r) == from);
        let r1 = r + 1;
        assert(prefix_ok(lam, mu, n, p1, k, r1)) by {
            assert forall|i: int| 0 <= i < p1.len() implies 1 <= #[trigger] p1[i] by {
                if i < pre.len() {
                    assert(p1[i] == pre[i]);
                }
            }
            assert forall|j: int| 0 <= j < k implies #[trigger] letter_rows(p1, n, j, n) == mu[j] by {
                assert(letter_rows(pre, n, j, n) == mu[j]);
            }
            assert forall|j: int, i: int|
                0 <= j <= k && 1 <= i < n && (j < k || i < r1) implies row_before(lam, p1, n, j, i)
                    + #[trigger] strip_entry(p1, n, j, i) <= row_before(lam, p1, n, j, i - 1) by {
                if j < k || i < r {
                    assert(row_before(lam, pre, n, j, i) + strip_entry(pre, n, j, i) <= row_before(lam, pre, n, j, i - 1));
                }
            }
            assert forall|j: int, i: int|
                1 <= j <= k && 1 <= i <= n && (j < k || i <= r1) implies #[trigger] letter_rows(p1, n, j, i)
                    <= letter_rows(p1, n, j - 1, i - 1) by {
                if j < k || i <= r {
                    assert(letter_rows(pre, n, j, i) <= letter_rows(pre, n, j - 1, i - 1));
                } else {
                    assert(room[r] == letter_rows(pre, n, k - 1, r));
                }
            }
        }
        lemma_strip_state(lam, mu, nu, n, p1, k, r1, 0);
        lemma_strip_state(lam, mu, nu, n, pre, k, r, from + 1);
        assert(state_shape(lam, p1, n, k, r1) =~= shape.update(r, (shape[r] + from) as usize));
        assert(rows_after(lam, p1, n, k) =~= base);
        assert(state_placed(p1, n, k, r1) =~= placed.update(r, from as usize));
        assert(state_room(p1, n, k) =~= room);
        if r1 < n {
            lemma_index(n, k, r1, mu.len() as int);
            assert(words_from(p1, len, b, ok) == words_with_next(p1, len, b, ok, 1));
        }
        assert(words_with_next(pre, len, b, ok, v) == words_from(p1, len, b, ok) + words_with_next(pre, len, b, ok, v + 1));
    }
}

pub proof fn lemma_trim_padded(lam: Seq<usize>, n: nat)
    requires
        is_partition(lam),
        lam.len() <= n,
    ensures
        trim_zeros(padded(lam, n)) == lam,
    decreases n,
{
    if n == lam.len() {
        assert(padded(lam, n) =~= lam);
        if lam.len() > 0 {
            assert(lam.last() > 0);
        }
    } else {
        lemma_trim_padded(lam, (n - 1) as nat);
        assert(padded(lam, n).drop_last() =~= padded(lam, (n - 1) as nat));
    }
}

/// The multiplicity of `nu` in the constructive decomposition of `lambda ⊗ mu` is the
/// number of Littlewood-Richardson strip sequences from `lambda` to `nu`, written as
/// words of `mu.len()` letters times `lambda.len() + mu.len()` rows, each entry one more
/// than the number of boxes that the letter puts in the row: each letter `k + 1` puts
/// `mu[k]` boxes; in no row do they reach past the length the row above had before that
/// letter; in rows `0..=i` the boxes of letter `k + 1` never outnumber those of letter
/// `k` in rows `0..i`; and the rows at the end are `nu`.
pub proof fn lemma_pieri_counts_strip_words(lambda: Seq<usize>, mu: Seq<usize>, nu: Seq<usize>)
    requires
        is_partition(lambda),
        is_partition(mu),
        seq_sum(lambda) + seq_sum(mu) < usize::MAX,
    ensures
        pieri_count(lambda, mu, Some(nu)) == words_from(
            Seq::<usize>::empty(),
            (mu.len() * (lambda.len() + mu.len())) as nat,
            (seq_sum(mu) + 1) as nat,
            strip_word(lambda, mu, nu, (lambda.len() + mu.len()) as int),
        ).len(),
{
    let n: int = (lambda.len() + mu.len()) as int;
    let e = Seq::<usize>::empty();
    let len = (mu.len() * n) as nat;
    let b = (seq_sum(mu) + 1) as nat;
    let ok = strip_word(lambda, mu, nu, n);
    lemma_seq_sum_nonneg(lambda);
    lemma_seq_sum_nonneg(mu);
    if mu.len() == 0 {
        assert(len == 0);
        assert(rows_after(lambda, e, n, 0) =~= padded(lambda, n as nat));
        lemma_trim_padded(lambda, n as nat);
        assert(ok(e) == (lambda == nu));
        assert(words_from(e, len, b, ok) == if ok(e) { seq![e] } else { Seq::<Seq<usize>>::empty() });
    } else {
        assert(0 * n == 0);
        assert(prefix_ok(lambda, mu, n, e, 0, 0)) by {
            assert(letter_rows(e, n, 0, 0) == 0);
        }
        lemma_strip_state(lambda, mu, nu, n, e, 0, 0, 0);
        assert(state_shape(lambda, e, n, 0, 0) =~= padded(lambda, n as nat));
        assert(rows_after(lambda, e, n, 0) =~= padded(lambda, n as nat));
        assert(state_placed(e, n, 0, 0) =~= Seq::new(n as nat, |i: int| 0usize));
        lemma_index(n, 0, 0, mu.len() as int);
        assert(mu[0] > 0);
        assert(words_from(e, len, b, ok) == words_with_next(e, len, b, ok, 1));
    }
}

} // verus!
