//! The dimension of an SU(N) representation and the hook length count of standard
//! tableaux, as exact fractions.
use vstd::prelude::*;
use crate::cell::{Cell, hook_len, cell_in, in_shape};
use crate::diagram::{YoungDiagram, diagram_cells, lemma_diagram_cells_complete, lemma_diagram_cells_in, lemma_diagram_cells_len,
    lemma_hook_bound};
use crate::fraction::{Fraction, coprime, fits_i64};
use crate::partition::{is_partition, seq_sum, lemma_seq_sum_nonneg};

verus! {

broadcast use Fraction::lemma_valid;

/// The factor `N + content` of a cell for SU(`n`), with `n` taken as `i64`.
pub open spec fn su_factor(n: usize, c: Cell) -> int {
    (n as i64) as int + (c.col as int - c.row as int)
}

/// Product of the first `k` factors `N + content`.
pub open spec fn su_numerator(cells: Seq<Cell>, n: usize, k: int) -> int
    decreases k,
{
    if k <= 0 {
        1
    } else {
        su_numerator(cells, n, k - 1) * su_factor(n, cells[k - 1])
    }
}

/// Product of the hook lengths of the first `k` cells.
pub open spec fn hook_product(s: Seq<usize>, k: int) -> int
    decreases k,
{
    if k <= 0 {
        1
    } else {
        hook_product(s, k - 1) * hook_len(s, diagram_cells(s)[k - 1])
    }
}

/// `k!`
pub open spec fn factorial(k: int) -> int
    decreases k,
{
    if k <= 0 {
        1
    } else {
        factorial(k - 1) * k
    }
}

/// Every partial product of the dimension formula fits in `i64` in lowest terms.
pub open spec fn su_products_fit(s: Seq<usize>, n: usize) -> bool {
    forall|k: int|
        1 <= k <= seq_sum(s) ==> #[trigger] fits_i64(su_numerator(diagram_cells(s), n, k), hook_product(s, k))
}

/// Every partial product of the hook length formula fits in `i64` in lowest terms.
pub open spec fn count_products_fit(s: Seq<usize>) -> bool {
    forall|k: int| 1 <= k <= seq_sum(s) ==> #[trigger] fits_i64(factorial(k), hook_product(s, k))
}

/// Each factor `N + content` is an `i64`.
pub open spec fn su_factors_in_range(s: Seq<usize>, n: usize) -> bool {
    forall|k: int|
        0 <= k < seq_sum(s) ==> i64::MIN <= #[trigger] su_factor(n, diagram_cells(s)[k]) <= i64::MAX
}

proof fn lemma_hook_product_pos(s: Seq<usize>, k: int)
    requires
        is_partition(s),
        s.len() <= usize::MAX,
        0 <= k <= seq_sum(s),
    ensures
        hook_product(s, k) > 0,
    decreases k,
{
    if k > 0 {
        lemma_hook_product_pos(s, k - 1);
        lemma_diagram_cells_in(s);
        lemma_diagram_cells_len(s);
        lemma_hook_bound(s, diagram_cells(s)[k - 1]);
        let a = hook_product(s, k - 1);
        let b = hook_len(s, diagram_cells(s)[k - 1]);
        assert(a * b > 0) by (nonlinear_arith)
            requires
                a > 0,
                b > 0,
        ;
    }
}

/// Multiplying a fraction equal to `p / q` by one equal to `x / h` gives a pair whose lowest
/// terms are those of `(p * x) / (q * h)`.
proof fn lemma_value_step(an: int, ad: int, p: int, q: int, fnum: int, fden: int, x: int, h: int, xx: int, yy: int)
    requires
        ad > 0,
        fden > 0,
        q > 0,
        h > 0,
        an * q == ad * p,
        fnum * h == fden * x,
        xx * (ad * fden) == yy * (an * fnum),
    ensures
        xx * (q * h) == yy * (p * x),
{
    assert(xx * (ad * fden) * (q * h) == yy * (an * fnum) * (q * h)) by (nonlinear_arith)
        requires
            xx * (ad * fden) == yy * (an * fnum),
    ;
    assert(yy * (an * fnum) * (q * h) == yy * (an * q) * (fnum * h)) by (nonlinear_arith);
    assert(yy * (an * q) * (fnum * h) == yy * (ad * p) * (fden * x)) by (nonlinear_arith)
        requires
            an * q == ad * p,
            fnum * h == fden * x,
    ;
    assert(xx * (q * h) * (ad * fden) == yy * (p * x) * (ad * fden)) by (nonlinear_arith)
        requires
            xx * (ad * fden) * (q * h) == yy * (ad * p) * (fden * x),
    ;
    assert(ad * fden > 0) by (nonlinear_arith)
        requires
            ad > 0,
            fden > 0,
    ;
    lemma_cancel(xx * (q * h), yy * (p * x), ad * fden);
}

proof fn lemma_cancel(a: int, b: int, c: int)
    requires
        c > 0,
        a * c == b * c,
    ensures
        a == b,
{
    if a < b {
        assert(a * c < b * c) by (nonlinear_arith)
            requires
                a < b,
                c > 0,
        ;
    } else if a > b {
        assert(a * c > b * c) by (nonlinear_arith)
            requires
                a > b,
                c > 0,
        ;
    }
}

/// Fitting depends only on the value of the fraction.
proof fn lemma_fits_transfer(p1: int, q1: int, p2: int, q2: int)
    requires
        q1 > 0,
        q2 > 0,
        p1 * q2 == p2 * q1,
        fits_i64(p2, q2),
    ensures
        fits_i64(p1, q1),
{
    assert forall|x: int, y: int| y > 0 && coprime(x, y) && #[trigger] (x * q1) == #[trigger] (y * p1)
        implies i64::MIN <= x <= i64::MAX && y <= i64::MAX by {
        assert(x * q2 * q1 == y * p2 * q1) by (nonlinear_arith)
            requires
                x * q1 == y * p1,
                p1 * q2 == p2 * q1,
        ;
        lemma_cancel(x * q2, y * p2, q1);
    }
}

proof fn lemma_su_numerator_positive(s: Seq<usize>, n: usize, k: int)
    requires
        is_partition(s),
        s.len() <= usize::MAX,
        s.len() <= n <= i64::MAX,
        0 <= k <= seq_sum(s),
    ensures
        su_numerator(diagram_cells(s), n, k) > 0,
    decreases k,
{
    if k > 0 {
        lemma_su_numerator_positive(s, n, k - 1);
        lemma_diagram_cells_in(s);
        lemma_diagram_cells_len(s);
        let c = diagram_cells(s)[k - 1];
        assert(cell_in(s, c) && c.col >= 1);
        assert(su_factor(n, c) > 0);
        let p = su_numerator(diagram_cells(s), n, k - 1);
        assert(p * su_factor(n, c) > 0) by (nonlinear_arith)
            requires
                p > 0,
                su_factor(n, c) > 0,
        ;
    }
}

proof fn lemma_su_numerator_zero(s: Seq<usize>, n: usize, k: int, k0: int)
    requires
        0 <= k0 < k,
        su_factor(n, diagram_cells(s)[k0]) == 0,
    ensures
        su_numerator(diagram_cells(s), n, k) == 0,
    decreases k,
{
    if k - 1 > k0 {
        lemma_su_numerator_zero(s, n, k - 1, k0);
    }
}

/// The product of the factors `N + content` is positive when the diagram has at most `N`
/// rows, and zero when it has more: cell (`N + 1`, 1) then has the factor 0.
pub proof fn lemma_su_numerator_sign(s: Seq<usize>, n: usize)
    requires
        is_partition(s),
        s.len() <= usize::MAX,
        n <= i64::MAX,
    ensures
        s.len() <= n ==> su_numerator(diagram_cells(s), n, seq_sum(s)) > 0,
        s.len() > n ==> su_numerator(diagram_cells(s), n, seq_sum(s)) == 0,
{
    lemma_diagram_cells_len(s);
    if s.len() <= n {
        lemma_su_numerator_positive(s, n, seq_sum(s));
    } else {
        let c = Cell { row: (n + 1) as usize, col: 1 };
        assert(s[n as int] >= 1);
        assert(in_shape(s, c));
        lemma_diagram_cells_complete(s, c);
        let k0 = choose|k: int| 0 <= k < diagram_cells(s).len() && #[trigger] diagram_cells(s)[k] == c;
        lemma_su_numerator_zero(s, n, seq_sum(s), k0);
    }
}

/// A fraction whose value is `num / den` with `den > 0` has the sign of `num`.
proof fn lemma_value_sign(p: int, q: int, num: int, den: int)
    requires
        q > 0,
        den > 0,
        p * den == q * num,
    ensures
        p > 0 <==> num > 0,
        p == 0 <==> num == 0,
{
    assert(p > 0 ==> num > 0) by (nonlinear_arith)
        requires
            q > 0,
            den > 0,
            p * den == q * num,
    ;
    assert(num > 0 ==> p > 0) by (nonlinear_arith)
        requires
            q > 0,
            den > 0,
            p * den == q * num,
    ;
    assert(p == 0 <==> num == 0) by (nonlinear_arith)
        requires
            q > 0,
            den > 0,
            p * den == q * num,
    ;
}

/// Multiplying two equal cross products gives equal cross products.
proof fn lemma_cross_products(a: int, b: int, c: int, e: int, p: int, q: int, num: int, den: int)
    requires
        a * q == c * p,
        b * den == e * num,
    ensures
        a * b * (q * den) == c * e * (p * num),
{
    assert(a * b * (q * den) == (a * q) * (b * den)) by (nonlinear_arith);
    assert(c * e * (p * num) == (c * p) * (e * num)) by (nonlinear_arith);
}

/// The dimension of the irreducible representation of SU(`n`) with diagram `diag`: the
/// product over the cells of `(n + content) / hook`, in lowest terms.
pub fn su_dimension(diag: &YoungDiagram, n: usize) -> (r: Fraction)
    requires
        seq_sum(diag@) <= i64::MAX,
        su_factors_in_range(diag@, n),
        su_products_fit(diag@, n),
    ensures
        r.numer_view() * hook_product(diag@, seq_sum(diag@)) == r.denom_view() * su_numerator(
            diagram_cells(diag@),
            n,
            seq_sum(diag@),
        ),
        r.denom_view() > 0,
        coprime(r.numer_view(), r.denom_view()),
        n <= i64::MAX ==> (r.numer_view() > 0 <==> diag@.len() <= n),
        n <= i64::MAX ==> (r.numer_view() == 0 <==> diag@.len() > n),
{
    diag.facts();
    let r = checked_su_dimension(diag, n).unwrap();
    proof {
        if n <= i64::MAX {
            lemma_su_numerator_sign(diag@, n);
            lemma_seq_sum_nonneg(diag@);
            lemma_hook_product_pos(diag@, seq_sum(diag@));
            lemma_value_sign(
                r.numer_view(),
                r.denom_view(),
                su_numerator(diagram_cells(diag@), n, seq_sum(diag@)),
                hook_product(diag@, seq_sum(diag@)),
            );
        }
    }
    r
}

/// Like `su_dimension`, but `None` when some partial product does not fit in `i64`.
pub fn checked_su_dimension(diag: &YoungDiagram, n: usize) -> (r: Option<Fraction>)
    requires
        seq_sum(diag@) <= i64::MAX,
        su_factors_in_range(diag@, n),
    ensures
        r is Some <==> su_products_fit(diag@, n),
        r matches Some(f) ==> f.numer_view() * hook_product(diag@, seq_sum(diag@)) == f.denom_view()
            * su_numerator(diagram_cells(diag@), n, seq_sum(diag@)) && f.denom_view() > 0 && coprime(
            f.numer_view(),
            f.denom_view(),
        ),
{
    diag.facts();
    let ghost s = diag@;
    let cells = diag.cells();
    proof {
        lemma_diagram_cells_in(s);
        lemma_diagram_cells_len(s);
    }
    let mut dim = Fraction::new(1, 1);
    let mut k: usize = 0;
    while k < cells.len()
        invariant
            k <= cells@.len(),
            cells@ == diagram_cells(s),
            cells@.len() == seq_sum(s),
            s == diag@,
            is_partition(s),
            s.len() <= usize::MAX,
            seq_sum(s) <= i64::MAX,
            su_factors_in_range(s, n),
            forall|j: int| 0 <= j < cells@.len() ==> crate::cell::cell_in(s, #[trigger] cells@[j]) && cells@[j].col >= 1,
            forall|j: int| 1 <= j <= k ==> #[trigger] fits_i64(su_numerator(cells@, n, j), hook_product(s, j)),
            dim.numer_view() * hook_product(s, k as int) == dim.denom_view() * su_numerator(cells@, n, k as int),
        decreases cells.len() - k,
    {
        let cell = cells[k];
        proof {
            lemma_hook_bound(s, cell);
            assert(cell.col <= seq_sum(s) && cell.row <= seq_sum(s)) by {
                crate::diagram::lemma_corner_bound(s);
                assert(s[cell.row - 1] <= s[0]);
            }
        }
        let hook = cell.hook_length(diag) as i64;
        let content = cell.content();
        proof {
            assert(su_factor(n, cell) == (n as i64) + content);
            assert(i64::MIN <= su_factor(n, cells@[k as int]) <= i64::MAX);
        }
        let arm = (n as i64) + content;
        let factor = Fraction::new(arm, hook);
        let ghost p = su_numerator(cells@, n, k as int);
        let ghost q = hook_product(s, k as int);
        proof {
            use_type_invariant(&dim);
            use_type_invariant(&factor);
            lemma_hook_product_pos(s, k as int);
            lemma_hook_product_pos(s, k + 1);
            assert(su_numerator(cells@, n, k + 1) == p * arm);
            assert(hook_product(s, k + 1) == q * hook);
            lemma_cross_products(
                dim.numer_view(),
                factor.numer_view(),
                dim.denom_view(),
                factor.denom_view(),
                p,
                q,
                arm as int,
                hook as int,
            );
            assert(dim.denom_view() * factor.denom_view() > 0) by (nonlinear_arith)
                requires
                    dim.denom_view() > 0,
                    factor.denom_view() > 0,
            ;
        }
        match dim.checked_mul(&factor) {
            Some(next) => {
                proof {
                    lemma_value_step(
                        dim.numer_view(),
                        dim.denom_view(),
                        p,
                        q,
                        factor.numer_view(),
                        factor.denom_view(),
                        arm as int,
                        hook as int,
                        next.numer_view(),
                        next.denom_view(),
                    );
                    lemma_fits_transfer(
                        su_numerator(cells@, n, k + 1),
                        hook_product(s, k + 1),
                        dim.numer_view() * factor.numer_view(),
                        dim.denom_view() * factor.denom_view(),
                    );
                }
                dim = next;
            },
            None => {
                proof {
                    if su_products_fit(s, n) {
                        assert(fits_i64(su_numerator(cells@, n, k + 1), hook_product(s, k + 1)));
                        lemma_fits_transfer(
                            dim.numer_view() * factor.numer_view(),
                            dim.denom_view() * factor.denom_view(),
                            su_numerator(cells@, n, k + 1),
                            hook_product(s, k + 1),
                        );
                    }
                }
                return None;
            },
        }
        k = k + 1;
    }
    proof {
        use_type_invariant(&dim);
    }
    Some(dim)
}

/// The number of standard tableaux of shape `diag` by the hook length formula: the
/// product over `i` of `i / hook_i`, the hooks taken in the order of the cells.
pub fn count_standard_tableaux(diag: &YoungDiagram) -> (r: Fraction)
    requires
        seq_sum(diag@) <= i64::MAX,
        count_products_fit(diag@),
    ensures
        r.numer_view() * hook_product(diag@, seq_sum(diag@)) == r.denom_view() * factorial(seq_sum(diag@)),
        r.denom_view() > 0,
        coprime(r.numer_view(), r.denom_view()),
{
    checked_count_standard_tableaux(diag).unwrap()
}

/// Like `count_standard_tableaux`, but `None` when some partial product does not fit in
/// `i64`.
pub fn checked_count_standard_tableaux(diag: &YoungDiagram) -> (r: Option<Fraction>)
    requires
        seq_sum(diag@) <= i64::MAX,
    ensures
        r is Some <==> count_products_fit(diag@),
        r matches Some(f) ==> f.numer_view() * hook_product(diag@, seq_sum(diag@)) == f.denom_view()
            * factorial(seq_sum(diag@)) && f.denom_view() > 0 && coprime(f.numer_view(), f.denom_view()),
{
    diag.facts();
    let ghost s = diag@;
    let hooks = diag.hook_lengths();
    let size = diag.size();
    proof {
        lemma_diagram_cells_in(s);
        lemma_diagram_cells_len(s);
    }
    let mut count = Fraction::new(1, 1);
    let mut i: usize = 0;
    while i < size
        invariant
            i <= size,
            size == seq_sum(s),
            hooks@.len() == size,
            forall|j: int| 0 <= j < hooks@.len() ==> hooks@[j] == hook_len(s, #[trigger] diagram_cells(s)[j]),
            s == diag@,
            is_partition(s),
            s.len() <= usize::MAX,
            seq_sum(s) <= i64::MAX,
            forall|j: int| 0 <= j < size ==> crate::cell::cell_in(s, #[trigger] diagram_cells(s)[j]) && diagram_cells(s)[j].col >= 1,
            forall|j: int| 1 <= j <= i ==> #[trigger] fits_i64(factorial(j), hook_product(s, j)),
            count.numer_view() * hook_product(s, i as int) == count.denom_view() * factorial(i as int),
        decreases size - i,
    {
        let num = (i + 1) as i64;
        proof {
            lemma_hook_bound(s, diagram_cells(s)[i as int]);
        }
        let den = hooks[i] as i64;
        let factor = Fraction::new(num, den);
        let ghost p = factorial(i as int);
        let ghost q = hook_product(s, i as int);
        proof {
            use_type_invariant(&count);
            use_type_invariant(&factor);
            lemma_hook_product_pos(s, i as int);
            lemma_hook_product_pos(s, i + 1);
            assert(factorial(i + 1) == p * num);
            assert(hook_product(s, i + 1) == q * den);
            assert(count.denom_view() * factor.denom_view() > 0) by (nonlinear_arith)
                requires
                    count.denom_view() > 0,
                    factor.denom_view() > 0,
            ;
            lemma_cross_products(
                count.numer_view(),
                factor.numer_view(),
                count.denom_view(),
                factor.denom_view(),
                p,
                q,
                num as int,
                den as int,
            );
        }
        match count.checked_mul(&factor) {
            Some(next) => {
                proof {
                    lemma_value_step(
                        count.numer_view(),
                        count.denom_view(),
                        p,
                        q,
                        factor.numer_view(),
                        factor.denom_view(),
                        num as int,
                        den as int,
                        next.numer_view(),
                        next.denom_view(),
                    );
                    lemma_fits_transfer(
                        factorial(i + 1),
                        hook_product(s, i + 1),
                        count.numer_view() * factor.numer_view(),
                        count.denom_view() * factor.denom_view(),
                    );
                }
                count = next;
            },
            None => {
                proof {
                    if count_products_fit(s) {
                        assert(fits_i64(factorial(i + 1), hook_product(s, i + 1)));
                        lemma_fits_transfer(
                            count.numer_view() * factor.numer_view(),
                            count.denom_view() * factor.denom_view(),
                            factorial(i + 1),
                            hook_product(s, i + 1),
                        );
                    }
                }
                return None;
            },
        }
        i = i + 1;
    }
    proof {
        use_type_invariant(&count);
    }
    Some(count)
}

} // verus!
