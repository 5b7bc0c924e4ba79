//! Work handed out to threads item by item.

use vstd::prelude::*;

use rayon::iter::{IntoParallelIterator, ParallelIterator};

verus! {

/// `out` holds, in order, what `job` makes of each number below `n`.
pub open spec fn mapped<T, J: Fn(usize) -> T>(job: J, n: usize, out: Seq<T>) -> bool {
    out.len() == n && forall|i: usize| i < n ==> call_ensures(job, (i,), #[trigger] out[i as int])
}

/// `rayon`'s parallel iterator over a range, mapped and collected: the
/// results come in the order of the range, whichever thread made them.
#[verifier::external_body]
pub(crate) fn map_each<T: Send, J: Fn(usize) -> T + Sync>(n: usize, job: &J) -> (out: Vec<T>)
    requires
        forall|i: usize| i < n ==> call_requires(*job, (i,)),
    ensures
        mapped(*job, n, out@),
{
    (0..n).into_par_iter().map(|i| job(i)).collect()
}

} // verus!
