//! Words of a fixed length over the letters `1..=m`, listed in lexicographic order: the
//! search space of the backtracking fillings.
use vstd::prelude::*;
use crate::partition::lex_lt;
use vstd::arithmetic::power::pow;

verus! {

/// The words of length `n` over `1..=m` that extend `pre` and satisfy `ok`, in
/// increasing lexicographic order.
pub open spec fn words_from(
    pre: Seq<usize>,
    n: nat,
    m: nat,
    ok: spec_fn(Seq<usize>) -> bool,
) -> Seq<Seq<usize>>
    decreases n - pre.len(), 1int, 0int,
{
    if pre.len() >= n {
        if ok(pre) {
            seq![pre]
        } else {
            Seq::empty()
        }
    } else {
        words_with_next(pre, n, m, ok, 1)
    }
}

/// Those of `words_from(pre, ..)` whose next letter is at least `v`.
pub open spec fn words_with_next(
    pre: Seq<usize>,
    n: nat,
    m: nat,
    ok: spec_fn(Seq<usize>) -> bool,
    v: nat,
) -> Seq<Seq<usize>>
    decreases n - pre.len(), 0int, m + 1 - v,
{
    if v == 0 || v > m || pre.len() >= n {
        Seq::empty()
    } else {
        words_from(pre.push(v as usize), n, m, ok) + words_with_next(pre, n, m, ok, v + 1)
    }
}

/// `w` is a word of length `n` over `1..=m` that extends `pre` and satisfies `ok`.
pub open spec fn completes(
    w: Seq<usize>,
    pre: Seq<usize>,
    n: nat,
    m: nat,
    ok: spec_fn(Seq<usize>) -> bool,
) -> bool {
    &&& w.len() == n
    &&& pre.len() <= n
    &&& w.subrange(0, pre.len() as int) == pre
    &&& forall|i: int| pre.len() <= i < n ==> 1 <= #[trigger] w[i] <= m
    &&& ok(w)
}

proof fn lemma_push_prefix(w: Seq<usize>, pre: Seq<usize>)
    requires
        pre.len() < w.len(),
        w.subrange(0, pre.len() as int) == pre,
    ensures
        w.subrange(0, pre.len() + 1int) == pre.push(w[pre.len() as int]),
{
    assert(w.subrange(0, pre.len() + 1int) =~= pre.push(w[pre.len() as int]));
}

/// The listed words are exactly the completions of `pre`.
pub proof fn lemma_words_from(
    pre: Seq<usize>,
    n: nat,
    m: nat,
    ok: spec_fn(Seq<usize>) -> bool,
)
    requires
        pre.len() <= n,
        m <= usize::MAX,
    ensures
        forall|w: Seq<usize>| #[trigger] words_from(pre, n, m, ok).contains(w) <==> completes(w, pre, n, m, ok),
    decreases n - pre.len(), 1int, 0int,
{
    if pre.len() >= n {
        assert forall|w: Seq<usize>| #[trigger] words_from(pre, n, m, ok).contains(w) <==> completes(w, pre, n, m, ok) by {
            if completes(w, pre, n, m, ok) {
                assert(w =~= pre);
                assert(words_from(pre, n, m, ok)[0] == w);
            }
            if words_from(pre, n, m, ok).contains(w) {
                assert(w == pre);
                assert(w.subrange(0, pre.len() as int) =~= pre);
            }
        }
    } else {
        lemma_words_with_next(pre, n, m, ok, 1);
        assert(words_from(pre, n, m, ok) == words_with_next(pre, n, m, ok, 1));
        assert forall|w: Seq<usize>| #[trigger] words_from(pre, n, m, ok).contains(w) <==> completes(w, pre, n, m, ok) by {
            if completes(w, pre, n, m, ok) {
                assert(1 <= w[pre.len() as int]);
            }
        }
    }
}

/// The listed words are the completions of `pre` whose next letter is at least `v`.
pub proof fn lemma_words_with_next(
    pre: Seq<usize>,
    n: nat,
    m: nat,
    ok: spec_fn(Seq<usize>) -> bool,
    v: nat,
)
    requires
        pre.len() < n,
        1 <= v <= m + 1,
        m <= usize::MAX,
    ensures
        forall|w: Seq<usize>| #[trigger] words_with_next(pre, n, m, ok, v).contains(w) <==> (completes(w, pre, n, m, ok) && w[pre.len() as int] >= v),
    decreases n - pre.len(), 0int, m + 1 - v,
{
    let ws = words_with_next(pre, n, m, ok, v);
    if v > m {
        assert(ws =~= Seq::<Seq<usize>>::empty());
        assert forall|w: Seq<usize>| #[trigger] ws.contains(w) <==> (completes(w, pre, n, m, ok) && w[pre.len() as int] >= v) by {
            if completes(w, pre, n, m, ok) {
                assert(1 <= w[pre.len() as int] <= m);
            }
        }
    } else {
        let p2 = pre.push(v as usize);
        lemma_words_from(p2, n, m, ok);
        lemma_words_with_next(pre, n, m, ok, v + 1);
        let a = words_from(p2, n, m, ok);
        let b = words_with_next(pre, n, m, ok, v + 1);
        assert(ws == a + b);
        assert forall|w: Seq<usize>| #[trigger] ws.contains(w) <==> (completes(w, pre, n, m, ok) && w[pre.len() as int] >= v) by {
            if ws.contains(w) {
                let i = choose|i: int| 0 <= i < ws.len() && ws[i] == w;
                if i < a.len() {
                    assert(a[i] == w);
                    assert(a.contains(w));
                    assert(completes(w, p2, n, m, ok));
                    assert(w.subrange(0, pre.len() as int) =~= w.subrange(0, p2.len() as int).subrange(0, pre.len() as int));
                    assert(p2.subrange(0, pre.len() as int) =~= pre);
                    assert(w[pre.len() as int] == w.subrange(0, p2.len() as int)[pre.len() as int]);
                    assert(w[pre.len() as int] == v);
                    assert forall|k: int| pre.len() <= k < n implies 1 <= #[trigger] w[k] <= m by {
                        if k > pre.len() {
                            assert(p2.len() <= k);
                        }
                    }
                    assert(completes(w, pre, n, m, ok));
                } else {
                    assert(b[i - a.len()] == w);
                    assert(b.contains(w));
                }
            }
            if completes(w, pre, n, m, ok) && w[pre.len() as int] >= v {
                if w[pre.len() as int] == v {
                    lemma_push_prefix(w, pre);
                    assert(w.subrange(0, p2.len() as int) == p2);
                    assert forall|k: int| p2.len() <= k < n implies 1 <= #[trigger] w[k] <= m by {
                        assert(pre.len() <= k);
                    }
                    assert(completes(w, p2, n, m, ok));
                    assert(a.contains(w));
                    let i = choose|i: int| 0 <= i < a.len() && a[i] == w;
                    assert(ws[i] == w);
                } else {
                    assert(b.contains(w));
                    let i = choose|i: int| 0 <= i < b.len() && b[i] == w;
                    assert(ws[a.len() + i] == w);
                }
            }
        }
    }
}

/// Words that agree on a prefix and then differ are ordered by their first difference.
pub proof fn lemma_lex_first_difference(a: Seq<usize>, b: Seq<usize>, k: int)
    requires
        0 <= k < a.len(),
        k < b.len(),
        a.subrange(0, k) == b.subrange(0, k),
        a[k] < b[k],
    ensures
        lex_lt(a, b),
    decreases k,
{
    if k > 0 {
        assert(a[0] == a.subrange(0, k)[0]);
        assert(b[0] == b.subrange(0, k)[0]);
        assert(a.drop_first().subrange(0, k - 1) =~= b.drop_first().subrange(0, k - 1)) by {
            assert forall|i: int| 0 <= i < k - 1 implies a.drop_first()[i] == b.drop_first()[i] by {
                assert(a[i + 1] == a.subrange(0, k)[i + 1]);
                assert(b[i + 1] == b.subrange(0, k)[i + 1]);
            }
        }
        lemma_lex_first_difference(a.drop_first(), b.drop_first(), k - 1);
    }
}

/// Every listed word extends `pre` and has the length `n`.
proof fn lemma_words_shape(pre: Seq<usize>, n: nat, m: nat, ok: spec_fn(Seq<usize>) -> bool)
    requires
        pre.len() <= n,
        m <= usize::MAX,
    ensures
        forall|i: int|
            0 <= i < words_from(pre, n, m, ok).len() ==> completes(
                #[trigger] words_from(pre, n, m, ok)[i],
                pre,
                n,
                m,
                ok,
            ),
{
    lemma_words_from(pre, n, m, ok);
    assert forall|i: int| 0 <= i < words_from(pre, n, m, ok).len() implies completes(
        #[trigger] words_from(pre, n, m, ok)[i],
        pre,
        n,
        m,
        ok,
    ) by {
        assert(words_from(pre, n, m, ok).contains(words_from(pre, n, m, ok)[i]));
    }
}

/// The listed words are in strictly increasing lexicographic order.
pub proof fn lemma_words_sorted(pre: Seq<usize>, n: nat, m: nat, ok: spec_fn(Seq<usize>) -> bool)
    requires
        pre.len() <= n,
        m <= usize::MAX,
    ensures
        forall|i: int, j: int|
            0 <= i < j < words_from(pre, n, m, ok).len() ==> lex_lt(
                #[trigger] words_from(pre, n, m, ok)[i],
                #[trigger] words_from(pre, n, m, ok)[j],
            ),
    decreases n - pre.len(), 1int, 0int,
{
    if pre.len() < n {
        lemma_next_sorted(pre, n, m, ok, 1);
        assert(words_from(pre, n, m, ok) == words_with_next(pre, n, m, ok, 1));
    }
}

proof fn lemma_next_sorted(
    pre: Seq<usize>,
    n: nat,
    m: nat,
    ok: spec_fn(Seq<usize>) -> bool,
    v: nat,
)
    requires
        pre.len() < n,
        1 <= v <= m + 1,
        m <= usize::MAX,
    ensures
        forall|i: int, j: int|
            0 <= i < j < words_with_next(pre, n, m, ok, v).len() ==> lex_lt(
                #[trigger] words_with_next(pre, n, m, ok, v)[i],
                #[trigger] words_with_next(pre, n, m, ok, v)[j],
            ),
    decreases n - pre.len(), 0int, m + 1 - v,
{
    if v <= m {
        let p2 = pre.push(v as usize);
        let a = words_from(p2, n, m, ok);
        let b = words_with_next(pre, n, m, ok, v + 1);
        let ws = words_with_next(pre, n, m, ok, v);
        assert(ws == a + b);
        lemma_words_sorted(p2, n, m, ok);
        lemma_next_sorted(pre, n, m, ok, v + 1);
        lemma_words_shape(p2, n, m, ok);
        lemma_words_with_next(pre, n, m, ok, v + 1);
        assert forall|i: int, j: int| 0 <= i < j < ws.len() implies lex_lt(
            #[trigger] ws[i],
            #[trigger] ws[j],
        ) by {
            if j < a.len() {
                assert(ws[i] == a[i] && ws[j] == a[j]);
            } else if i >= a.len() {
                assert(ws[i] == b[i - a.len()] && ws[j] == b[j - a.len()]);
            } else {
                let x = a[i];
                let y = b[j - a.len()];
                assert(ws[i] == x && ws[j] == y);
                assert(completes(x, p2, n, m, ok));
                assert(b.contains(y));
                let k = pre.len() as int;
                assert(x[k] == x.subrange(0, k + 1)[k]);
                assert(x.subrange(0, k) =~= x.subrange(0, k + 1).subrange(0, k));
                assert(p2.subrange(0, k) =~= pre);
                assert(completes(y, pre, n, m, ok) && y[k] >= v + 1);
                lemma_lex_first_difference(x, y, k);
            }
        }
    }
}


/// A power of a non-negative number is non-negative.
pub proof fn lemma_pow_nonneg(b: int, e: nat)
    requires
        b >= 0,
    ensures
        pow(b, e) >= 0,
    decreases e,
{
    reveal(pow);
    if e > 0 {
        lemma_pow_nonneg(b, (e - 1) as nat);
        assert(b * pow(b, (e - 1) as nat) >= 0) by (nonlinear_arith)
            requires
                b >= 0,
                pow(b, (e - 1) as nat) >= 0,
        ;
    }
}

/// At most `m` to the power of the number of letters still to choose are listed.
pub proof fn lemma_words_count(pre: Seq<usize>, n: nat, m: nat, ok: spec_fn(Seq<usize>) -> bool)
    requires
        pre.len() <= n,
    ensures
        words_from(pre, n, m, ok).len() <= pow(m as int, (n - pre.len()) as nat),
    decreases n - pre.len(), 1int, 0int,
{
    reveal(pow);
    if pre.len() < n {
        lemma_next_count(pre, n, m, ok, 1);
        assert(words_from(pre, n, m, ok) == words_with_next(pre, n, m, ok, 1));
        let rest = (n - pre.len() - 1) as nat;
        assert(pow(m as int, (n - pre.len()) as nat) == m * pow(m as int, rest));
    }
}

proof fn lemma_next_count(pre: Seq<usize>, n: nat, m: nat, ok: spec_fn(Seq<usize>) -> bool, v: nat)
    requires
        pre.len() < n,
        1 <= v,
    ensures
        words_with_next(pre, n, m, ok, v).len() <= (if v <= m { m + 1 - v } else { 0 }) * pow(
            m as int,
            (n - pre.len() - 1) as nat,
        ),
    decreases n - pre.len(), 0int, m + 1 - v,
{
    let p = pow(m as int, (n - pre.len() - 1) as nat);
    lemma_pow_nonneg(m as int, (n - pre.len() - 1) as nat);
    if v <= m {
        lemma_words_count(pre.push(v as usize), n, m, ok);
        lemma_next_count(pre, n, m, ok, v + 1);
        let a = words_from(pre.push(v as usize), n, m, ok).len();
        let b = words_with_next(pre, n, m, ok, v + 1).len();
        assert(words_with_next(pre, n, m, ok, v).len() == a + b);
        assert(a + b <= (m + 1 - v) * p) by (nonlinear_arith)
            requires
                a <= p,
                b <= (if v + 1 <= m { m + 1 - (v + 1) } else { 0 }) * p,
                v <= m,
                p >= 0,
        ;
    }
}

} // verus!
