//! K-fold cross-validation bookkeeping.
//!
//! The dataset's N row indices are split, in their original order, into K
//! contiguous blocks: the first N mod K blocks hold ceil(N/K) rows, the
//! rest floor(N/K).  For each fold the classifier — an outside capability
//! that trains on floating-point features — is fitted on the rows outside
//! the block and queried on the rows inside it; this module fixes the
//! partition, the training-row selection, the per-fold hit count, and the
//! exact arithmetic mean of the K fold accuracies as a rational number.

use vstd::arithmetic::div_mod::lemma_fundamental_div_mod;
use vstd::arithmetic::mul::lemma_mul_inequality;
use vstd::arithmetic::mul::lemma_mul_upper_bound;
use vstd::prelude::*;

use crate::errors::DataError;

verus! {

/// Rows held out by fold `i` of `k` over `n` rows.
pub open spec fn fold_size(n: int, k: int, i: int) -> int {
    if i < n % k {
        n / k + 1
    } else {
        n / k
    }
}

/// First row held out by fold `i`: all earlier folds' sizes summed.
pub open spec fn fold_start(n: int, k: int, i: int) -> int {
    i * (n / k) + (if i < n % k {
        i
    } else {
        n % k
    })
}

/// Consecutive folds touch: each starts where the previous one ended.
pub proof fn lemma_fold_step(n: int, k: int, i: int)
    requires
        k >= 1,
        0 <= i,
    ensures
        fold_start(n, k, i + 1) == fold_start(n, k, i) + fold_size(n, k, i),
{
    assert((i + 1) * (n / k) == i * (n / k) + n / k) by (nonlinear_arith);
}

/// No fold starts beyond the row count, and the fold after the last one
/// would start exactly at `n`: the folds partition all rows.
pub proof fn lemma_fold_start_le(n: int, k: int, i: int)
    requires
        k >= 1,
        n >= 0,
        0 <= i <= k,
    ensures
        fold_start(n, k, i) <= n,
        fold_start(n, k, k) == n,
        fold_start(n, k, i) >= 0,
    decreases k - i,
{
    lemma_fundamental_div_mod(n, k);
    assert(n % k < k) by {
        vstd::arithmetic::div_mod::lemma_mod_bound(n, k);
    }
    assert(fold_start(n, k, k) == k * (n / k) + n % k) by (nonlinear_arith)
        requires
            k >= 1,
            n % k < k,
    ;
    assert(fold_start(n, k, i) >= 0) by (nonlinear_arith)
        requires
            0 <= i,
            n >= 0,
            k >= 1,
        ;
    if i < k {
        lemma_fold_start_le(n, k, i + 1);
        lemma_fold_step(n, k, i);
        assert(fold_size(n, k, i) >= 0) by (nonlinear_arith)
            requires
                n >= 0,
                k >= 1,
        ;
    }
}

/// Law: with at least two folds over at least `k` rows, every fold holds
/// at least one row and leaves at least one training row.
pub proof fn lemma_fold_sizes(n: int, k: int, i: int)
    requires
        2 <= k <= n,
        0 <= i < k,
    ensures
        1 <= fold_size(n, k, i) <= n - 1,
{
    lemma_fundamental_div_mod(n, k);
    vstd::arithmetic::div_mod::lemma_mod_bound(n, k);
    vstd::arithmetic::div_mod::lemma_div_pos_is_pos(n, k);
    assert(n / k >= 1) by (nonlinear_arith)
        requires
            2 <= k <= n,
            n == k * (n / k) + n % k,
            0 <= n % k < k,
            n / k >= 0,
    ;
    assert(fold_size(n, k, i) <= n - 1) by (nonlinear_arith)
        requires
            2 <= k <= n,
            n == k * (n / k) + n % k,
            0 <= n % k < k,
            1 <= n / k,
            0 <= i < k,
    ;
}

/// Partition `n` row indices into `k` contiguous folds: fold `i` holds the
/// rows `[start, start + size)` given by its returned pair.  Succeeds if
/// and only if `2 <= k <= n`; fewer folds are a configuration error and
/// more folds than rows a shape error.
pub fn fold_spans(n: usize, k: usize) -> (r: Result<Vec<(usize, usize)>, DataError>)
    ensures
        r is Ok <==> 2 <= k <= n,
        r == Result::<Vec<(usize, usize)>, DataError>::Err(DataError::FoldCountTooSmall) <==> k
            < 2,
        r == Result::<Vec<(usize, usize)>, DataError>::Err(DataError::FoldCountExceedsRows) <==> (
        k >= 2 && k > n),
        r matches Ok(v) ==> {
            &&& v@.len() == k
            &&& forall|i: int|
                0 <= i < k ==> (#[trigger] v@[i]).0 == fold_start(n as int, k as int, i)
                    && v@[i].1 == fold_size(n as int, k as int, i)
            &&& forall|i: int| 0 <= i < k ==> 1 <= (#[trigger] v@[i]).1 <= n - 1
            &&& v@[0].0 == 0
            &&& forall|i: int|
                0 <= i < k - 1 ==> (#[trigger] v@[i + 1]).0 == v@[i].0 + v@[i].1
            &&& v@[k - 1].0 + v@[k - 1].1 == n
        },
{
    if k < 2 {
        return Err(DataError::FoldCountTooSmall);
    }
    if k > n {
        return Err(DataError::FoldCountExceedsRows);
    }
    let q = n / k;
    let rem = n % k;
    let mut v: Vec<(usize, usize)> = Vec::new();
    let mut start: usize = 0;
    let mut i: usize = 0;
    while i < k
        invariant
            2 <= k <= n,
            q == n as int / k as int,
            rem == n as int % k as int,
            i <= k,
            v@.len() == i,
            start == fold_start(n as int, k as int, i as int),
            forall|p: int|
                0 <= p < i ==> (#[trigger] v@[p]).0 == fold_start(n as int, k as int, p)
                    && v@[p].1 == fold_size(n as int, k as int, p),
        decreases k - i,
    {
        proof {
            lemma_fold_start_le(n as int, k as int, i + 1);
            lemma_fold_step(n as int, k as int, i as int);
            lemma_fold_sizes(n as int, k as int, i as int);
        }
        let size = if i < rem {
            q + 1
        } else {
            q
        };
        v.push((start, size));
        start = start + size;
        i = i + 1;
    }
    proof {
        assert forall|p: int| 0 <= p < k implies 1 <= (#[trigger] v@[p]).1 <= n - 1 by {
            lemma_fold_sizes(n as int, k as int, p);
        }
        assert(v@[k - 1].0 + v@[k - 1].1 == n) by {
            lemma_fold_step(n as int, k as int, k - 1);
            lemma_fold_start_le(n as int, k as int, k as int);
        }
        assert forall|p: int|
            0 <= p < k - 1 implies (#[trigger] v@[p + 1]).0 == v@[p].0 + v@[p].1 by {
            lemma_fold_step(n as int, k as int, p);
        }
    }
    Ok(v)
}

/// The training rows for the block `[start, start + held)` of `n` rows:
/// every row index outside the block, in ascending order.
pub fn training_indices(n: usize, start: usize, held: usize) -> (t: Vec<usize>)
    requires
        start + held <= n,
    ensures
        t@.len() == n - held,
        forall|i: int| 0 <= i < start ==> #[trigger] t@[i] == i,
        forall|i: int| start <= i < n - held ==> #[trigger] t@[i] == i + held,
{
    let mut t: Vec<usize> = Vec::new();
    let mut i: usize = 0;
    while i < start
        invariant
            start + held <= n,
            i <= start,
            t@.len() == i,
            forall|p: int| 0 <= p < i ==> #[trigger] t@[p] == p,
        decreases start - i,
    {
        t.push(i);
        i = i + 1;
    }
    let mut j: usize = start + held;
    while j < n
        invariant
            start + held <= n,
            start + held <= j <= n,
            t@.len() == j - held,
            forall|p: int| 0 <= p < start ==> #[trigger] t@[p] == p,
            forall|p: int| start <= p < j - held ==> #[trigger] t@[p] == p + held,
        decreases n - j,
    {
        t.push(j);
        j = j + 1;
    }
    t
}

/// How many positions of two equally long label rows agree.
pub open spec fn match_count(a: Seq<u64>, b: Seq<u64>) -> int
    decreases a.len(),
{
    if a.len() == 0 {
        0
    } else {
        match_count(a.drop_last(), b.drop_last()) + (if a.last() == b.last() {
            1int
        } else {
            0int
        })
    }
}

/// Count exact label matches between predictions and truth.
pub fn count_matches(predicted: &Vec<u64>, truth: &Vec<u64>) -> (hits: usize)
    requires
        predicted@.len() == truth@.len(),
    ensures
        hits == match_count(predicted@, truth@),
        hits <= predicted@.len(),
{
    let n = predicted.len();
    let mut hits: usize = 0;
    let mut i: usize = 0;
    while i < n
        invariant
            i <= n,
            n == predicted@.len(),
            predicted@.len() == truth@.len(),
            hits == match_count(predicted@.subrange(0, i as int), truth@.subrange(0, i as int)),
            hits <= i,
        decreases n - i,
    {
        proof {
            assert(predicted@.subrange(0, i + 1).drop_last() =~= predicted@.subrange(
                0,
                i as int,
            ));
            assert(truth@.subrange(0, i + 1).drop_last() =~= truth@.subrange(0, i as int));
        }
        if predicted[i] == truth[i] {
            hits = hits + 1;
        }
        i = i + 1;
    }
    proof {
        assert(predicted@.subrange(0, n as int) =~= predicted@);
        assert(truth@.subrange(0, n as int) =~= truth@);
    }
    hits
}

/// The exact weight that turns fold hits into a common-denominator
/// numerator contribution: q * (q + 1) divided by the fold's size, which
/// is q + 1 for a fold of size q and q for a fold of size q + 1.
pub open spec fn fold_weight(size: int, q: int) -> int {
    if size == q {
        q + 1
    } else {
        q
    }
}

/// Numerator of the mean accuracy over the common denominator
/// k * q * (q + 1): each fold's hit count times its weight.
pub open spec fn weighted_hits(folds: Seq<(usize, usize)>, q: int) -> int
    decreases folds.len(),
{
    if folds.len() == 0 {
        0
    } else {
        weighted_hits(folds.drop_last(), q) + folds.last().0 as int * fold_weight(
            folds.last().1 as int,
            q,
        )
    }
}

/// The aggregate cross-validation accuracy as an exact rational.
///
/// Each fold is a pair (hits, size) with size either q or q + 1, q being
/// floor(n / k).  The result (num, den) satisfies
/// num == sum over folds of hits * (q * (q + 1) / size) and
/// den == k * q * (q + 1), so num / den is exactly the arithmetic mean of
/// the per-fold accuracies hits / size, every fold weighted equally.
pub fn mean_accuracy(folds: &Vec<(usize, usize)>, q: usize) -> (acc: (u128, u128))
    requires
        folds@.len() >= 1,
        q >= 1,
        folds@.len() * q <= usize::MAX,
        forall|i: int|
            0 <= i < folds@.len() ==> ((#[trigger] folds@[i]).1 == q || folds@[i].1 == q + 1)
                && folds@[i].0 <= folds@[i].1,
    ensures
        acc.1 == folds@.len() * q * (q + 1),
        acc.0 == weighted_hits(folds@, q as int),
        acc.0 <= acc.1,
        acc.1 > 0,
{
    let k = folds.len();
    proof {
        lemma_mul_upper_bound(
            k as int * q as int,
            usize::MAX as int,
            q as int + 1,
            u64::MAX as int + 1,
        );
        assert(k as int * q as int * (q as int + 1) < (u128::MAX as int + 1))
            by (nonlinear_arith)
            requires
                k as int * q as int <= usize::MAX as int,
                k as int * q as int * (q as int + 1) <= usize::MAX as int * (u64::MAX as int
                    + 1),
        ;
        assert(k as int * q as int * (q as int + 1) >= 1) by (nonlinear_arith)
            requires
                k >= 1,
                q >= 1,
        ;
    }
    let den: u128 = (k as u128) * (q as u128) * (q as u128 + 1);
    let mut num: u128 = 0;
    let mut i: usize = 0;
    while i < k
        invariant
            k == folds@.len(),
            q >= 1,
            i <= k,
            forall|p: int|
                0 <= p < folds@.len() ==> ((#[trigger] folds@[p]).1 == q || folds@[p].1 == q
                    + 1) && folds@[p].0 <= folds@[p].1,
            den == k as int * q as int * (q as int + 1),
            num == weighted_hits(folds@.subrange(0, i as int), q as int),
            num <= i as int * q as int * (q as int + 1),
        decreases k - i,
    {
        let (hits, size) = folds[i];
        let w: u128 = if size == q {
            q as u128 + 1
        } else {
            q as u128
        };
        proof {
            assert(hits as int * w as int <= q as int * (q as int + 1)) by (nonlinear_arith)
                requires
                    hits <= size,
                    size == q || size == q + 1,
                    w == fold_weight(size as int, q as int),
                    q >= 1,
            ;
            assert(i as int * q as int * (q as int + 1) + q as int * (q as int + 1) == (i + 1)
                * q as int * (q as int + 1)) by (nonlinear_arith);
            lemma_mul_inequality(i + 1, k as int, q as int * (q as int + 1));
            assert((i + 1) * (q as int * (q as int + 1)) == (i + 1) * q as int * (q as int
                + 1)) by (nonlinear_arith);
            assert(k as int * (q as int * (q as int + 1)) == k as int * q as int * (q as int
                + 1)) by (nonlinear_arith);
            assert(folds@.subrange(0, i + 1).drop_last() =~= folds@.subrange(0, i as int));
        }
        num = num + (hits as u128) * w;
        i = i + 1;
    }
    proof {
        assert(folds@.subrange(0, k as int) =~= folds@);
    }
    (num, den)
}

} // verus!
