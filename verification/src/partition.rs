//! Integer partitions: non-increasing sequences of positive parts.
use vstd::prelude::*;
use crate::text::{decimal, push_decimal, string_from_chars};

verus! {

/// Every part is at most the one before it.
pub open spec fn nonincreasing(s: Seq<usize>) -> bool {
    forall|i: int, j: int| 0 <= i <= j < s.len() ==> s[j] <= s[i]
}

/// A partition: non-increasing and all parts positive.
pub open spec fn is_partition(s: Seq<usize>) -> bool {
    &&& nonincreasing(s)
    &&& forall|i: int| 0 <= i < s.len() ==> s[i] > 0
}

/// The `i`-th part, or zero past the end (parts are indexed from 0).
pub open spec fn part_at(s: Seq<usize>, i: int) -> int {
    if 0 <= i < s.len() {
        s[i] as int
    } else {
        0
    }
}

/// Sum of the parts.
pub open spec fn seq_sum(s: Seq<usize>) -> int
    decreases s.len(),
{
    if s.len() == 0 {
        0
    } else {
        seq_sum(s.drop_last()) + s.last()
    }
}

/// `outer` contains `inner`: every part of `inner` is at most the matching part of `outer`.
pub open spec fn includes(outer: Seq<usize>, inner: Seq<usize>) -> bool {
    forall|i: int| 0 <= i ==> #[trigger] part_at(inner, i) <= part_at(outer, i)
}

/// Strict lexicographic order on sequences (a proper prefix is smaller), as `Vec` orders them.
pub open spec fn lex_lt(a: Seq<usize>, b: Seq<usize>) -> bool
    decreases a.len(),
{
    if a.len() == 0 {
        b.len() > 0
    } else if b.len() == 0 {
        false
    } else if a[0] != b[0] {
        a[0] < b[0]
    } else {
        lex_lt(a.drop_first(), b.drop_first())
    }
}

/// The lexicographic order is irreflexive and transitive.
pub proof fn lemma_lex_lt_strict(a: Seq<usize>, b: Seq<usize>, c: Seq<usize>)
    ensures
        !lex_lt(a, a),
        lex_lt(a, b) && lex_lt(b, c) ==> lex_lt(a, c),
    decreases a.len(),
{
    if a.len() > 0 {
        lemma_lex_lt_strict(a.drop_first(), b.drop_first(), c.drop_first());
    }
}

/// Any two different sequences are ordered one way or the other.
pub proof fn lemma_lex_lt_total(a: Seq<usize>, b: Seq<usize>)
    requires
        a != b,
    ensures
        lex_lt(a, b) || lex_lt(b, a),
    decreases a.len(),
{
    if a.len() > 0 && b.len() > 0 && a[0] == b[0] {
        if a.drop_first() == b.drop_first() {
            assert(a =~= seq![a[0]] + a.drop_first());
            assert(b =~= seq![b[0]] + b.drop_first());
        }
        lemma_lex_lt_total(a.drop_first(), b.drop_first());
    } else if a.len() == 0 && b.len() == 0 {
        assert(a =~= b);
    }
}

/// A sequence of sequences in strictly decreasing lexicographic order.
pub open spec fn strictly_decreasing(s: Seq<Seq<usize>>) -> bool {
    forall|i: int, j: int| 0 <= i < j < s.len() ==> lex_lt(#[trigger] s[j], #[trigger] s[i])
}

/// A sequence of positive parts is no longer than its sum.
pub proof fn lemma_len_le_sum(s: Seq<usize>)
    requires
        forall|i: int| 0 <= i < s.len() ==> s[i] > 0,
    ensures
        s.len() <= seq_sum(s),
    decreases s.len(),
{
    if s.len() > 0 {
        let t = s.drop_last();
        assert forall|i: int| 0 <= i < t.len() implies t[i] > 0 by {
            assert(t[i] == s[i]);
        }
        lemma_len_le_sum(t);
    }
}

pub proof fn lemma_seq_sum_nonneg(s: Seq<usize>)
    ensures
        seq_sum(s) >= 0,
    decreases s.len(),
{
    if s.len() > 0 {
        lemma_seq_sum_nonneg(s.drop_last());
    }
}

/// Prefix sums never exceed the whole sum.
pub proof fn lemma_seq_sum_take(s: Seq<usize>, k: int)
    requires
        0 <= k <= s.len(),
    ensures
        0 <= seq_sum(s.take(k)) <= seq_sum(s),
    decreases s.len() - k,
{
    lemma_seq_sum_nonneg(s.take(k));
    if k < s.len() {
        lemma_seq_sum_take(s, k + 1);
        assert(s.take(k + 1).drop_last() =~= s.take(k));
    } else {
        assert(s.take(k) =~= s);
    }
}

/// Sum of a prepended sequence.
pub proof fn lemma_seq_sum_prepend(x: usize, s: Seq<usize>)
    ensures
        seq_sum(seq![x] + s) == x + seq_sum(s),
    decreases s.len(),
{
    if s.len() == 0 {
        assert(seq![x] + s =~= seq![x]);
        assert(seq![x].drop_last() =~= Seq::<usize>::empty());
        assert(seq_sum(Seq::<usize>::empty()) == 0);
    } else {
        lemma_seq_sum_prepend(x, s.drop_last());
        assert((seq![x] + s).drop_last() =~= seq![x] + s.drop_last());
        assert((seq![x] + s).last() == s.last());
    }
}

/// Every part is at most the sum.
pub proof fn lemma_part_le_sum(s: Seq<usize>, i: int)
    requires
        0 <= i < s.len(),
    ensures
        s[i] <= seq_sum(s),
    decreases s.len(),
{
    lemma_seq_sum_nonneg(s.drop_last());
    if i < s.len() - 1 {
        lemma_part_le_sum(s.drop_last(), i);
    }
}


/// All partitions of `rem` with every part at most `maxp`, in strictly decreasing
/// lexicographic order.
pub open spec fn partitions_bounded(rem: nat, maxp: nat) -> Seq<Seq<usize>>
    decreases rem, 1nat, 0nat,
{
    if rem == 0 {
        seq![Seq::<usize>::empty()]
    } else {
        partitions_led_by(rem, if maxp < rem { maxp } else { rem })
    }
}

/// Partitions of `rem` whose first part is at most `k`: those led by `k`, then those led
/// by smaller parts.
pub open spec fn partitions_led_by(rem: nat, k: nat) -> Seq<Seq<usize>>
    decreases rem, 0nat, k,
{
    if k == 0 || rem == 0 {
        Seq::empty()
    } else if k > rem {
        partitions_led_by(rem, rem)
    } else {
        partitions_bounded((rem - k) as nat, k).map_values(|q: Seq<usize>| seq![k as usize] + q)
            + partitions_led_by(rem, (k - 1) as nat)
    }
}

/// The parts of each partition in a sequence.
pub open spec fn views(v: Seq<Partition>) -> Seq<Seq<usize>> {
    v.map_values(|p: Partition| p@)
}

proof fn lemma_bounded_sound(rem: nat, maxp: nat)
    requires
        rem <= usize::MAX,
    ensures
        forall|i: int|
            0 <= i < partitions_bounded(rem, maxp).len() ==> {
                let q = #[trigger] partitions_bounded(rem, maxp)[i];
                &&& is_partition(q)
                &&& seq_sum(q) == rem
                &&& q.len() > 0 ==> q[0] <= maxp
            },
    decreases rem, 1nat, 0nat,
{
    if rem == 0 {
        assert(seq_sum(Seq::<usize>::empty()) == 0);
        assert(partitions_bounded(rem, maxp) =~= seq![Seq::<usize>::empty()]);
    } else {
        let k = if maxp < rem { maxp } else { rem };
        lemma_led_by_sound(rem, k);
        assert(partitions_bounded(rem, maxp) == partitions_led_by(rem, k));
        assert forall|i: int| 0 <= i < partitions_bounded(rem, maxp).len() implies {
            let q = #[trigger] partitions_bounded(rem, maxp)[i];
            &&& is_partition(q)
            &&& seq_sum(q) == rem
            &&& q.len() > 0 ==> q[0] <= maxp
        } by {
            assert(partitions_led_by(rem, k)[i] == partitions_bounded(rem, maxp)[i]);
        }
    }
}

proof fn lemma_led_by_sound(rem: nat, k: nat)
    requires
        rem <= usize::MAX,
        k <= rem,
    ensures
        forall|i: int|
            0 <= i < partitions_led_by(rem, k).len() ==> {
                let q = #[trigger] partitions_led_by(rem, k)[i];
                &&& is_partition(q)
                &&& seq_sum(q) == rem
                &&& q.len() > 0
                &&& q[0] <= k
            },
    decreases rem, 0nat, k,
{
    if k == 0 || rem == 0 {
    } else {
        let sub = partitions_bounded((rem - k) as nat, k);
        let block = sub.map_values(|q: Seq<usize>| seq![k as usize] + q);
        lemma_bounded_sound((rem - k) as nat, k);
        lemma_led_by_sound(rem, (k - 1) as nat);
        let all = partitions_led_by(rem, k);
        assert(all == block + partitions_led_by(rem, (k - 1) as nat));
        assert forall|i: int| 0 <= i < all.len() implies {
            let q = #[trigger] all[i];
            &&& is_partition(q)
            &&& seq_sum(q) == rem
            &&& q.len() > 0
            &&& q[0] <= k
        } by {
            if i < block.len() {
                let t = sub[i];
                let q = seq![k as usize] + t;
                assert(all[i] == q);
                lemma_seq_sum_prepend(k as usize, t);
                assert forall|a: int, b: int| 0 <= a <= b < q.len() implies q[b] <= q[a] by {
                    if a > 0 {
                        assert(q[a] == t[a - 1]);
                        assert(q[b] == t[b - 1]);
                    } else if b > 0 {
                        assert(q[b] == t[b - 1]);
                        assert(t[0] >= t[b - 1]);
                    }
                }
                assert forall|a: int| 0 <= a < q.len() implies q[a] > 0 by {
                    if a > 0 {
                        assert(q[a] == t[a - 1]);
                    }
                }
            } else {
                assert(all[i] == partitions_led_by(rem, (k - 1) as nat)[i - block.len()]);
            }
        }
    }
}

proof fn lemma_bounded_complete(rem: nat, maxp: nat, q: Seq<usize>)
    requires
        rem <= usize::MAX,
        is_partition(q),
        seq_sum(q) == rem,
        q.len() > 0 ==> q[0] <= maxp,
    ensures
        partitions_bounded(rem, maxp).contains(q),
    decreases rem, 1nat, 0nat,
{
    if rem == 0 {
        if q.len() > 0 {
            lemma_part_le_sum(q, 0);
        }
        assert(q =~= Seq::<usize>::empty());
        assert(partitions_bounded(rem, maxp)[0] == q);
    } else {
        if q.len() == 0 {
            assert(seq_sum(q) == 0);
        }
        lemma_part_le_sum(q, 0);
        lemma_led_by_complete(rem, if maxp < rem { maxp } else { rem }, q);
    }
}

proof fn lemma_led_by_complete(rem: nat, k: nat, q: Seq<usize>)
    requires
        rem <= usize::MAX,
        k <= rem,
        is_partition(q),
        seq_sum(q) == rem,
        q.len() > 0,
        q[0] <= k,
    ensures
        partitions_led_by(rem, k).contains(q),
    decreases rem, 0nat, k,
{
    let sub = partitions_bounded((rem - k) as nat, k);
    let block = sub.map_values(|t: Seq<usize>| seq![k as usize] + t);
    assert(partitions_led_by(rem, k) == block + partitions_led_by(rem, (k - 1) as nat));
    if q[0] == k {
        let t = q.drop_first();
        assert(q =~= seq![k as usize] + t);
        lemma_seq_sum_prepend(k as usize, t);
        assert(is_partition(t)) by {
            assert forall|a: int, b: int| 0 <= a <= b < t.len() implies t[b] <= t[a] by {
                assert(t[a] == q[a + 1]);
                assert(t[b] == q[b + 1]);
            }
            assert forall|a: int| 0 <= a < t.len() implies t[a] > 0 by {
                assert(t[a] == q[a + 1]);
            }
        }
        if t.len() > 0 {
            assert(t[0] == q[1]);
        }
        lemma_bounded_complete((rem - k) as nat, k, t);
        let j = choose|j: int| 0 <= j < sub.len() && #[trigger] sub[j] == t;
        assert(block[j] == q);
        assert(partitions_led_by(rem, k)[j] == q);
    } else {
        lemma_led_by_complete(rem, (k - 1) as nat, q);
        let rest = partitions_led_by(rem, (k - 1) as nat);
        let j = choose|j: int| 0 <= j < rest.len() && #[trigger] rest[j] == q;
        assert(partitions_led_by(rem, k)[block.len() + j] == q);
    }
}

proof fn lemma_lex_lt_prepend(x: usize, a: Seq<usize>, b: Seq<usize>)
    ensures
        lex_lt(seq![x] + a, seq![x] + b) == lex_lt(a, b),
{
    assert((seq![x] + a).drop_first() =~= a);
    assert((seq![x] + b).drop_first() =~= b);
}

proof fn lemma_bounded_sorted(rem: nat, maxp: nat)
    requires
        rem <= usize::MAX,
    ensures
        strictly_decreasing(partitions_bounded(rem, maxp)),
    decreases rem, 1nat, 0nat,
{
    if rem > 0 {
        lemma_led_by_sorted(rem, if maxp < rem { maxp } else { rem });
    }
}

proof fn lemma_led_by_sorted(rem: nat, k: nat)
    requires
        rem <= usize::MAX,
        k <= rem,
    ensures
        strictly_decreasing(partitions_led_by(rem, k)),
    decreases rem, 0nat, k,
{
    if k > 0 && rem > 0 {
        let sub = partitions_bounded((rem - k) as nat, k);
        let block = sub.map_values(|t: Seq<usize>| seq![k as usize] + t);
        let rest = partitions_led_by(rem, (k - 1) as nat);
        let all = partitions_led_by(rem, k);
        assert(all == block + rest);
        lemma_bounded_sorted((rem - k) as nat, k);
        lemma_led_by_sorted(rem, (k - 1) as nat);
        lemma_led_by_sound(rem, (k - 1) as nat);
        assert forall|i: int, j: int| 0 <= i < j < all.len() implies lex_lt(
            #[trigger] all[j],
            #[trigger] all[i],
        ) by {
            if j < block.len() {
                lemma_lex_lt_prepend(k as usize, sub[j], sub[i]);
                assert(all[j] == seq![k as usize] + sub[j]);
                assert(all[i] == seq![k as usize] + sub[i]);
            } else if i < block.len() {
                let a = rest[j - block.len()];
                assert(all[j] == a);
                assert(all[i] == seq![k as usize] + sub[i]);
                assert(a[0] <= k - 1);
                assert(all[i][0] == k);
            } else {
                assert(all[j] == rest[j - block.len()]);
                assert(all[i] == rest[i - block.len()]);
            }
        }
    }
}

proof fn lemma_views_push(v: Seq<Partition>, p: Partition)
    ensures
        views(v.push(p)) == views(v).push(p@),
{
    assert(views(v.push(p)) =~= views(v).push(p@));
}

fn copy_parts(v: &Vec<usize>) -> (r: Vec<usize>)
    ensures
        r@ == v@,
{
    let mut r: Vec<usize> = Vec::new();
    let mut i: usize = 0;
    while i < v.len()
        invariant
            i <= v.len(),
            r@ =~= v@.take(i as int),
        decreases v.len() - i,
    {
        r.push(v[i]);
        i = i + 1;
    }
    proof {
        assert(v@.take(i as int) =~= v@);
    }
    r
}

/// The parts in decimal, separated by ", ".
pub open spec fn joined_decimals(s: Seq<usize>) -> Seq<char>
    decreases s.len(),
{
    if s.len() == 0 {
        Seq::empty()
    } else if s.len() == 1 {
        decimal(s[0] as nat)
    } else {
        joined_decimals(s.drop_last()) + seq![',', ' '] + decimal(s.last() as nat)
    }
}

/// How a partition is written: `[4, 3, 1]`.
pub open spec fn list_text(s: Seq<usize>) -> Seq<char> {
    seq!['['] + joined_decimals(s) + seq![']']
}

#[derive(Debug, PartialEq, Eq, Hash, PartialOrd, Ord)]
pub struct Partition {
    parts: Vec<usize>,
}

impl View for Partition {
    type V = Seq<usize>;

    closed spec fn view(&self) -> Seq<usize> {
        self.parts@
    }
}

impl Clone for Partition {
    fn clone(&self) -> (res: Self)
        ensures
            res@ == self@,
    {
        proof {
            use_type_invariant(self);
        }
        let mut parts: Vec<usize> = Vec::new();
        let mut i: usize = 0;
        while i < self.parts.len()
            invariant
                i <= self.parts.len(),
                parts@ =~= self.parts@.take(i as int),
            decreases self.parts.len() - i,
        {
            parts.push(self.parts[i]);
            i = i + 1;
        }
        proof {
            assert(self.parts@.take(i as int) =~= self.parts@);
        }
        Partition { parts }
    }
}

impl Partition {
    #[verifier::type_invariant]
    pub closed spec fn valid(self) -> bool {
        is_partition(self.parts@) && self.parts@.len() <= usize::MAX
    }

    /// What the type invariant says about the parts.
    pub broadcast proof fn lemma_valid(p: Partition)
        requires
            #[trigger] p.valid(),
        ensures
            is_partition(p@),
            p@.len() <= usize::MAX,
    {
    }

    /// Checks the parts: they must be non-increasing, and the last one positive.
    pub fn new(parts: Vec<usize>) -> (r: Result<Self, &'static str>)
        ensures
            r is Ok <==> is_partition(parts@),
            r matches Ok(p) ==> p@ == parts@,
            r matches Err(e) ==> e@ == (if nonincreasing(parts@) {
                "分拆各部分必须为正整数"@
            } else {
                "分拆各部分必须非递增"@
            }),
    {
        if parts.len() == 0 {
            return Ok(Partition { parts });
        }
        let mut i: usize = 1;
        while i < parts.len()
            invariant
                1 <= i <= parts.len(),
                nonincreasing(parts@.take(i as int)),
            decreases parts.len() - i,
        {
            if parts[i - 1] < parts[i] {
                proof {
                    assert(!nonincreasing(parts@)) by {
                        assert(parts@[i - 1] < parts@[i as int]);
                    }
                }
                return Err("分拆各部分必须非递增");
            }
            proof {
                let t = parts@.take(i + 1);
                assert forall|a: int, b: int| 0 <= a <= b < t.len() implies t[b] <= t[a] by {
                    if b < i {
                        assert(parts@.take(i as int)[a] == t[a]);
                        assert(parts@.take(i as int)[b] == t[b]);
                    } else if a < i {
                        assert(parts@.take(i as int)[a] == t[a]);
                        assert(parts@.take(i as int)[i - 1] == t[i - 1]);
                    }
                }
            }
            i = i + 1;
        }
        proof {
            assert(parts@.take(i as int) =~= parts@);
        }
        if parts[parts.len() - 1] == 0 {
            return Err("分拆各部分必须为正整数");
        }
        proof {
            assert forall|k: int| 0 <= k < parts@.len() implies parts@[k] > 0 by {
                assert(parts@[parts@.len() - 1] <= parts@[k]);
            }
        }
        Ok(Partition { parts })
    }

    /// The number of cells: the sum of the parts.
    pub fn size(&self) -> (r: usize)
        requires
            seq_sum(self@) <= usize::MAX,
        ensures
            r == seq_sum(self@),
    {
        let mut total: usize = 0;
        let mut i: usize = 0;
        while i < self.parts.len()
            invariant
                i <= self.parts.len(),
                total == seq_sum(self.parts@.take(i as int)),
                seq_sum(self.parts@) <= usize::MAX,
            decreases self.parts.len() - i,
        {
            proof {
                assert(self.parts@.take(i + 1).drop_last() =~= self.parts@.take(i as int));
                lemma_seq_sum_take(self.parts@, i + 1);
            }
            total = total + self.parts[i];
            i = i + 1;
        }
        proof {
            assert(self.parts@.take(i as int) =~= self.parts@);
        }
        total
    }

    /// The number of parts.
    pub fn len(&self) -> (r: usize)
        ensures
            r == self@.len(),
    {
        self.parts.len()
    }

    pub fn is_empty(&self) -> (r: bool)
        ensures
            r == (self@.len() == 0),
    {
        self.parts.len() == 0
    }

    /// The part at index `i` (from 0), if there is one.
    pub fn get(&self, i: usize) -> (r: Option<usize>)
        ensures
            r == (if i < self@.len() {
                Some(self@[i as int])
            } else {
                None::<usize>
            }),
    {
        if i < self.parts.len() {
            Some(self.parts[i])
        } else {
            None
        }
    }

    pub fn parts(&self) -> (r: &[usize])
        ensures
            r@ == self@,
    {
        self.parts.as_slice()
    }

    /// Whether every part of `other` is at most the matching part of `self`.
    pub fn contains(&self, other: &Partition) -> (r: bool)
        ensures
            r == includes(self@, other@),
    {
        proof {
            use_type_invariant(self);
            use_type_invariant(other);
        }
        let n = if self.parts.len() > other.parts.len() {
            self.parts.len()
        } else {
            other.parts.len()
        };
        let mut i: usize = 0;
        while i < n
            invariant
                i <= n,
                n >= self@.len(),
                n >= other@.len(),
                forall|k: int| 0 <= k < i ==> #[trigger] part_at(other@, k) <= part_at(self@, k),
            decreases n - i,
        {
            let a = if i < self.parts.len() {
                self.parts[i]
            } else {
                0
            };
            let b = if i < other.parts.len() {
                other.parts[i]
            } else {
                0
            };
            if a < b {
                proof {
                    assert(part_at(other@, i as int) > part_at(self@, i as int));
                }
                return false;
            }
            i = i + 1;
        }
        proof {
            assert forall|k: int| 0 <= k implies #[trigger] part_at(other@, k) <= part_at(self@, k) by {
                if k >= n {
                    assert(part_at(other@, k) == 0);
                }
            }
        }
        true
    }
}


impl Partition {
    /// All partitions of `n`, from `[n]` down to `[1, 1, ..., 1]` in decreasing
    /// lexicographic order; none for `n == 0`.
    pub fn generate_all(n: usize) -> (r: Vec<Partition>)
        ensures
            views(r@) == (if n == 0 {
                Seq::<Seq<usize>>::empty()
            } else {
                partitions_bounded(n as nat, n as nat)
            }),
            forall|i: int|
                0 <= i < r.len() ==> is_partition(#[trigger] r@[i]@) && seq_sum(r@[i]@) == n,
            forall|s: Seq<usize>|
                is_partition(s) && seq_sum(s) == n && n > 0 ==> #[trigger] views(r@).contains(s),
            strictly_decreasing(views(r@)),
    {
        let mut result: Vec<Partition> = Vec::new();
        let mut current: Vec<usize> = Vec::new();
        Self::gen_helper(n, n, &mut current, &mut result);
        proof {
            let f = |q: Seq<usize>| Seq::<usize>::empty() + q;
            assert(partitions_bounded(n as nat, n as nat).map_values(f) =~= partitions_bounded(
                n as nat,
                n as nat,
            ));
            lemma_bounded_sound(n as nat, n as nat);
            lemma_bounded_sorted(n as nat, n as nat);
            assert forall|i: int| 0 <= i < result.len() implies is_partition(
                #[trigger] result@[i]@,
            ) && seq_sum(result@[i]@) == n by {
                assert(views(result@)[i] == result@[i]@);
            }
            assert forall|s: Seq<usize>|
                is_partition(s) && seq_sum(s) == n && n > 0 implies #[trigger] views(
                result@,
            ).contains(s) by {
                if s.len() > 0 {
                    lemma_part_le_sum(s, 0);
                }
                lemma_bounded_complete(n as nat, n as nat, s);
            }
        }
        result
    }

    /// Appends to `result` every partition that extends `current` by a partition of
    /// `remaining` with parts at most `max_part`, in decreasing lexicographic order.
    fn gen_helper(
        remaining: usize,
        max_part: usize,
        current: &mut Vec<usize>,
        result: &mut Vec<Partition>,
    )
        requires
            is_partition(old(current)@),
            old(current)@.len() > 0 ==> old(current)@.last() >= max_part,
        ensures
            final(current)@ == old(current)@,
            views(final(result)@) == views(old(result)@) + (if remaining == 0 && old(
                current,
            )@.len() == 0 {
                Seq::<Seq<usize>>::empty()
            } else {
                partitions_bounded(remaining as nat, max_part as nat).map_values(
                    |q: Seq<usize>| old(current)@ + q,
                )
            }),
        decreases remaining,
    {
        let ghost cur = current@;
        let ghost start = views(result@);
        let ghost f = |q: Seq<usize>| cur + q;
        if remaining == 0 {
            if current.len() > 0 {
                let parts = copy_parts(current);
                proof {
                    assert(parts@ + Seq::<usize>::empty() =~= parts@);
                }
                result.push(Partition { parts });
                proof {
                    lemma_views_push(old(result)@, result@.last());
                    assert(partitions_bounded(0, max_part as nat).map_values(f) =~= seq![cur]);
                    assert(views(result@) =~= start + seq![cur]);
                }
            } else {
                proof {
                    assert(views(result@) =~= start + Seq::<Seq<usize>>::empty());
                }
            }
            return;
        }
        let top: usize = if max_part < remaining {
            max_part
        } else {
            remaining
        };
        let mut part: usize = top;
        proof {
            assert(partitions_bounded(remaining as nat, max_part as nat) == partitions_led_by(
                remaining as nat,
                top as nat,
            ));
            assert(views(result@) + partitions_led_by(remaining as nat, part as nat).map_values(f)
                =~= start + partitions_led_by(remaining as nat, top as nat).map_values(f));
        }
        while part >= 1
            invariant
                part <= top,
                top <= remaining,
                top <= max_part,
                remaining > 0,
                current@ == cur,
                is_partition(cur),
                cur.len() > 0 ==> cur.last() >= max_part,
                f == (|q: Seq<usize>| cur + q),
                views(result@) + partitions_led_by(remaining as nat, part as nat).map_values(f)
                    == start + partitions_led_by(remaining as nat, top as nat).map_values(f),
            decreases part,
        {
            let ghost before = views(result@);
            current.push(part);
            proof {
                let c = current@;
                assert forall|a: int, b: int| 0 <= a <= b < c.len() implies c[b] <= c[a] by {
                    if b < cur.len() {
                        assert(c[a] == cur[a]);
                        assert(c[b] == cur[b]);
                    } else if a < cur.len() {
                        assert(c[a] == cur[a]);
                        assert(cur[a] >= cur.last());
                    }
                }
            }
            Self::gen_helper(remaining - part, part, current, result);
            let ghost pushed = current@;
            current.pop();
            proof {
                assert(current@ =~= cur);
                let sub = partitions_bounded((remaining - part) as nat, part as nat);
                let g = |q: Seq<usize>| seq![part] + q;
                let h = |q: Seq<usize>| pushed + q;
                assert(pushed == cur.push(part));
                assert(views(result@) == before + sub.map_values(h));
                assert(partitions_led_by(remaining as nat, part as nat) == sub.map_values(g)
                    + partitions_led_by(remaining as nat, (part - 1) as nat));
                assert((sub.map_values(g) + partitions_led_by(
                    remaining as nat,
                    (part - 1) as nat,
                )).map_values(f) =~= sub.map_values(g).map_values(f) + partitions_led_by(
                    remaining as nat,
                    (part - 1) as nat,
                ).map_values(f));
                assert forall|i: int| 0 <= i < sub.len() implies #[trigger] sub.map_values(
                    g,
                ).map_values(f)[i] == sub.map_values(h)[i] by {
                    assert(cur + (seq![part] + sub[i]) =~= cur.push(part) + sub[i]);
                }
                assert(sub.map_values(g).map_values(f) =~= sub.map_values(h));
                assert(views(result@) + partitions_led_by(
                    remaining as nat,
                    (part - 1) as nat,
                ).map_values(f) =~= before + partitions_led_by(
                    remaining as nat,
                    part as nat,
                ).map_values(f));
            }
            part = part - 1;
        }
        proof {
            assert(partitions_led_by(remaining as nat, 0).map_values(f) =~= Seq::<
                Seq<usize>,
            >::empty());
            assert(views(result@) =~= start + partitions_led_by(
                remaining as nat,
                top as nat,
            ).map_values(f));
        }
    }
}


impl Partition {
    /// The partition written as `[a, b, c]`.
    pub fn to_string(&self) -> (r: String)
        ensures
            r@ == list_text(self@),
    {
        let mut out: Vec<char> = Vec::new();
        out.push('[');
        let mut i: usize = 0;
        while i < self.parts.len()
            invariant
                i <= self.parts.len(),
                out@ == seq!['['] + joined_decimals(self.parts@.take(i as int)),
            decreases self.parts.len() - i,
        {
            let ghost before = out@;
            if i > 0 {
                out.push(',');
                out.push(' ');
            }
            push_decimal(self.parts[i], &mut out);
            proof {
                let t = self.parts@.take(i + 1);
                assert(t.drop_last() =~= self.parts@.take(i as int));
                if i == 0 {
                    assert(self.parts@.take(0) =~= Seq::<usize>::empty());
                    assert(out@ =~= seq!['['] + joined_decimals(t));
                } else {
                    assert(out@ =~= seq!['['] + joined_decimals(t));
                }
            }
            i = i + 1;
        }
        out.push(']');
        proof {
            assert(self.parts@.take(i as int) =~= self.parts@);
            assert(out@ =~= list_text(self@));
        }
        string_from_chars(&out)
    }

    /// Iterates over the parts, largest first.
    pub fn iter(&self) -> (r: std::slice::Iter<'_, usize>)
        ensures
            vstd::std_specs::iter::IteratorSpec::remaining(&r) == self@.as_ref(),
    {
        let r = self.parts.iter();
        proof {
            broadcast use vstd::std_specs::slice::axiom_spec_slice_iter;
        }
        r
    }
}

} // verus!
