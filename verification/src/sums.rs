//! Sums of integer-valued functions over sequences, with the update and
//! congruence lemmas the ledger's accounting invariants are proved by.

use vstd::prelude::*;

verus! {

/// Sum of `f` over all elements of `s`.
pub open spec fn seq_sum<T>(s: Seq<T>, f: spec_fn(T) -> int) -> int
    decreases s.len(),
{
    if s.len() == 0 {
        0
    } else {
        seq_sum(s.drop_last(), f) + f(s.last())
    }
}

pub proof fn lemma_seq_sum_push<T>(s: Seq<T>, f: spec_fn(T) -> int, x: T)
    ensures
        seq_sum(s.push(x), f) == seq_sum(s, f) + f(x),
{
    assert(s.push(x).drop_last() =~= s);
    assert(s.push(x).last() == x);
}

pub proof fn lemma_seq_sum_nonneg<T>(s: Seq<T>, f: spec_fn(T) -> int)
    requires
        forall|i: int| 0 <= i < s.len() ==> #[trigger] f(s[i]) >= 0,
    ensures
        seq_sum(s, f) >= 0,
    decreases s.len(),
{
    if s.len() > 0 {
        lemma_seq_sum_nonneg(s.drop_last(), f);
    }
}

/// A single element's contribution is bounded by the whole sum when all
/// contributions are nonnegative.
pub proof fn lemma_seq_sum_elem_bound<T>(s: Seq<T>, f: spec_fn(T) -> int, i: int)
    requires
        0 <= i < s.len(),
        forall|j: int| 0 <= j < s.len() ==> #[trigger] f(s[j]) >= 0,
    ensures
        f(s[i]) <= seq_sum(s, f),
    decreases s.len(),
{
    if i == s.len() - 1 {
        lemma_seq_sum_nonneg(s.drop_last(), f);
    } else {
        lemma_seq_sum_elem_bound(s.drop_last(), f, i);
    }
}

/// Two functions that agree on every element of `s` produce the same sum.
pub proof fn lemma_seq_sum_congruence<T>(s: Seq<T>, f: spec_fn(T) -> int, g: spec_fn(T) -> int)
    requires
        forall|i: int| 0 <= i < s.len() ==> #[trigger] f(s[i]) == #[trigger] g(s[i]),
    ensures
        seq_sum(s, f) == seq_sum(s, g),
    decreases s.len(),
{
    if s.len() > 0 {
        lemma_seq_sum_congruence(s.drop_last(), f, g);
    }
}

/// Updating one element changes the sum by the difference of that element's
/// contribution.
pub proof fn lemma_seq_sum_update<T>(s: Seq<T>, f: spec_fn(T) -> int, i: int, x: T)
    requires
        0 <= i < s.len(),
    ensures
        seq_sum(s.update(i, x), f) == seq_sum(s, f) - f(s[i]) + f(x),
    decreases s.len(),
{
    let su = s.update(i, x);
    if i == s.len() - 1 {
        assert(su.drop_last() =~= s.drop_last());
    } else {
        assert(su.drop_last() =~= s.drop_last().update(i, x));
        assert(su.last() == s.last());
        lemma_seq_sum_update(s.drop_last(), f, i, x);
    }
}

/// Two sums over the same sequence whose contributions agree everywhere
/// except at one position differ exactly by the difference at that position.
pub proof fn lemma_seq_sum_pointwise_except<T>(
    s: Seq<T>,
    f: spec_fn(T) -> int,
    g: spec_fn(T) -> int,
    i: int,
)
    requires
        0 <= i < s.len(),
        forall|j: int| 0 <= j < s.len() && j != i ==> #[trigger] f(s[j]) == #[trigger] g(s[j]),
    ensures
        seq_sum(s, g) == seq_sum(s, f) - f(s[i]) + g(s[i]),
    decreases s.len(),
{
    if i == s.len() - 1 {
        lemma_seq_sum_congruence(s.drop_last(), f, g);
    } else {
        lemma_seq_sum_pointwise_except(s.drop_last(), f, g, i);
    }
}

/// A sum of vanishing contributions vanishes.
pub proof fn lemma_seq_sum_zero<T>(s: Seq<T>, f: spec_fn(T) -> int)
    requires
        forall|i: int| 0 <= i < s.len() ==> #[trigger] f(s[i]) == 0,
    ensures
        seq_sum(s, f) == 0,
    decreases s.len(),
{
    if s.len() > 0 {
        lemma_seq_sum_zero(s.drop_last(), f);
    }
}

/// If every element's `g` contribution is bounded by its `f` contribution
/// scaled by `c / d` (floored), the same holds of the sums. This is the
/// heart of the payout accounting: floored scaling is superadditive, so the
/// scaled parts never add up to more than the scaled whole.
pub proof fn lemma_seq_sum_scaled_bound<T>(
    s: Seq<T>,
    f: spec_fn(T) -> int,
    g: spec_fn(T) -> int,
    c: int,
    d: int,
)
    requires
        0 < d,
        0 <= c,
        forall|i: int| 0 <= i < s.len() ==> 0 <= #[trigger] f(s[i]),
        forall|i: int| 0 <= i < s.len() ==> #[trigger] g(s[i]) <= (f(s[i]) * c) / d,
    ensures
        seq_sum(s, g) <= (seq_sum(s, f) * c) / d,
    decreases s.len(),
{
    if s.len() == 0 {
        assert((0int * c) / d == 0) by (nonlinear_arith)
            requires
                0 < d,
        ;
    } else {
        let s0 = s.drop_last();
        let x = seq_sum(s0, f);
        let a = f(s.last());
        lemma_seq_sum_scaled_bound(s0, f, g, c, d);
        lemma_seq_sum_nonneg(s0, f);
        crate::arith::lemma_scaled_div_subadditive(x, a, c, d);
        assert(seq_sum(s, f) == x + a);
        assert(seq_sum(s, g) <= (x * c) / d + (a * c) / d);
    }
}

/// For nonnegative contributions, a prefix never sums to more than the
/// whole sequence.
pub proof fn lemma_seq_sum_take_bound<T>(s: Seq<T>, f: spec_fn(T) -> int, i: int)
    requires
        0 <= i <= s.len(),
        forall|j: int| 0 <= j < s.len() ==> #[trigger] f(s[j]) >= 0,
    ensures
        seq_sum(s.take(i), f) <= seq_sum(s, f),
    decreases s.len() - i,
{
    if i < s.len() {
        lemma_seq_sum_take_bound(s, f, i + 1);
        assert(s.take(i + 1).drop_last() =~= s.take(i));
        assert(f(s.take(i + 1).last()) >= 0);
    } else {
        assert(s.take(i) =~= s);
    }
}

/// A pointwise bound between two contribution functions carries over to
/// the sums.
pub proof fn lemma_seq_sum_le<T>(s: Seq<T>, f: spec_fn(T) -> int, g: spec_fn(T) -> int)
    requires
        forall|i: int| 0 <= i < s.len() ==> #[trigger] f(s[i]) <= #[trigger] g(s[i]),
    ensures
        seq_sum(s, f) <= seq_sum(s, g),
    decreases s.len(),
{
    if s.len() > 0 {
        lemma_seq_sum_le(s.drop_last(), f, g);
    }
}

} // verus!
