//! Fixed-length spectral feature vectors.
//!
//! The eigensolver hands back the eigenvalues of a Laplacian in ascending
//! order; eigenvalues equal to zero count connected components and are
//! discarded.  A feature vector of target length F keeps the first
//! min(F, p) strictly positive eigenvalues — the smallest ones, since the
//! input is ascending — and pads the tail with a fill element when fewer
//! than F remain.
//!
//! Eigenvalues are floating-point numbers, which this library does not
//! touch: the caller supplies, next to the opaque values themselves, one
//! flag per value saying whether it is strictly positive (the comparison
//! uses no tolerance, by design), and the selection below is verified over
//! those flags for any element type.

use vstd::prelude::*;

use crate::errors::DataError;

verus! {

/// The indices of the strictly positive values, in input order.
pub open spec fn pos_indices(flags: Seq<bool>) -> Seq<int>
    decreases flags.len(),
{
    if flags.len() == 0 {
        Seq::empty()
    } else {
        let rest = pos_indices(flags.drop_last());
        if flags.last() {
            rest.push(flags.len() - 1)
        } else {
            rest
        }
    }
}

/// Law: the retained positions index strictly positive values, lie in
/// range, and are strictly increasing — so the retained values keep the
/// input's order, and with an ascending input they are the smallest
/// positive values, ascending.
pub proof fn lemma_pos_indices_ordered(flags: Seq<bool>)
    ensures
        pos_indices(flags).len() <= flags.len(),
        forall|k: int|
            0 <= k < pos_indices(flags).len()
                ==> 0 <= #[trigger] pos_indices(flags)[k] < flags.len()
                    && flags[pos_indices(flags)[k]],
        forall|k1: int, k2: int|
            0 <= k1 < k2 < pos_indices(flags).len()
                ==> #[trigger] pos_indices(flags)[k1] < #[trigger] pos_indices(flags)[k2],
    decreases flags.len(),
{
    if flags.len() > 0 {
        lemma_pos_indices_ordered(flags.drop_last());
        let prior = pos_indices(flags.drop_last());
        assert forall|k: int|
            0 <= k < pos_indices(flags).len()
                implies 0 <= #[trigger] pos_indices(flags)[k] < flags.len()
                    && flags[pos_indices(flags)[k]] by {
            if k < prior.len() {
                assert(pos_indices(flags)[k] == prior[k]);
                assert(flags.drop_last()[prior[k]] == flags[prior[k]]);
            }
        }
    }
}

/// Collect the indices whose flag is set, in order.
fn positive_indices(flags: &Vec<bool>) -> (ix: Vec<usize>)
    ensures
        ix@.len() == pos_indices(flags@).len(),
        forall|k: int| 0 <= k < ix@.len() ==> ix@[k] == pos_indices(flags@)[k],
{
    let n = flags.len();
    let mut ix: Vec<usize> = Vec::new();
    let mut i: usize = 0;
    while i < n
        invariant
            i <= n,
            n == flags@.len(),
            ix@.len() == pos_indices(flags@.subrange(0, i as int)).len(),
            forall|k: int|
                0 <= k < ix@.len() ==> ix@[k] == pos_indices(flags@.subrange(0, i as int))[k],
        decreases n - i,
    {
        proof {
            assert(flags@.subrange(0, i + 1).drop_last() =~= flags@.subrange(0, i as int));
            assert(flags@.subrange(0, i + 1).last() == flags@[i as int]);
        }
        if flags[i] {
            ix.push(i);
        }
        i = i + 1;
    }
    proof {
        assert(flags@.subrange(0, n as int) =~= flags@);
    }
    ix
}

/// Build a feature vector of length exactly `count` from opaque values and
/// their positivity flags: position k holds the value at the k-th flagged
/// index while one exists, and `fill` afterwards.
///
/// With `values` the ascending eigenvalues of a Laplacian, `flags[i]`
/// saying that `values[i] > 0`, and `fill` the number zero, this is the
/// whole truncation/padding policy: if p >= count the vector is the
/// `count` smallest positive eigenvalues ascending with no padding, and if
/// p < count it is all p of them followed by `count - p` zeros.
pub fn select_features<T: Copy>(values: &Vec<T>, flags: &Vec<bool>, count: usize, fill: T) -> (fv:
    Vec<T>)
    requires
        values@.len() == flags@.len(),
    ensures
        fv@.len() == count,
        forall|k: int|
            0 <= k < count && k < pos_indices(flags@).len()
                ==> #[trigger] fv@[k] == values@[pos_indices(flags@)[k]],
        forall|k: int|
            pos_indices(flags@).len() <= k < count ==> #[trigger] fv@[k] == fill,
{
    proof {
        lemma_pos_indices_ordered(flags@);
    }
    let ix = positive_indices(flags);
    let retained = ix.len();
    let mut fv: Vec<T> = Vec::new();
    let mut k: usize = 0;
    while k < count
        invariant
            k <= count,
            retained == pos_indices(flags@).len(),
            values@.len() == flags@.len(),
            ix@.len() == retained,
            forall|p: int| 0 <= p < ix@.len() ==> ix@[p] == pos_indices(flags@)[p],
            forall|p: int|
                0 <= p < pos_indices(flags@).len()
                    ==> 0 <= #[trigger] pos_indices(flags@)[p] < flags@.len(),
            fv@.len() == k,
            forall|p: int|
                0 <= p < k && p < retained
                    ==> #[trigger] fv@[p] == values@[pos_indices(flags@)[p]],
            forall|p: int| retained <= p < k ==> #[trigger] fv@[p] == fill,
        decreases count - k,
    {
        if k < retained {
            let idx = ix[k];
            fv.push(values[idx]);
        } else {
            fv.push(fill);
        }
        k = k + 1;
    }
    fv
}

/// `select_features` behind the configuration check: a feature count of
/// zero is a configuration error, everything else succeeds.
pub fn select_features_checked<T: Copy>(
    values: &Vec<T>,
    flags: &Vec<bool>,
    count: usize,
    fill: T,
) -> (r: Result<Vec<T>, DataError>)
    requires
        values@.len() == flags@.len(),
    ensures
        r is Ok <==> count >= 1,
        r is Err ==> r == Result::<Vec<T>, DataError>::Err(DataError::FeatureCountZero),
        r matches Ok(fv) ==> {
            &&& fv@.len() == count
            &&& forall|k: int|
                0 <= k < count && k < pos_indices(flags@).len()
                    ==> #[trigger] fv@[k] == values@[pos_indices(flags@)[k]]
            &&& forall|k: int|
                pos_indices(flags@).len() <= k < count ==> #[trigger] fv@[k] == fill
        },
{
    if count == 0 {
        Err(DataError::FeatureCountZero)
    } else {
        Ok(select_features(values, flags, count, fill))
    }
}

} // verus!
