//! Index bookkeeping of the eigendecomposition.

use vstd::prelude::*;

verus! {

/// The columns of `v` listed by `order`, each as a vector: entry `[k][i]` of
/// the result is `v[i][order[k]]`.  This turns the rotation matrix of the
/// Jacobi method into eigenvectors sorted by eigenvalue.
pub fn select_columns<T: Copy>(v: &Vec<Vec<T>>, order: &Vec<usize>) -> (r: Vec<Vec<T>>)
    requires
        forall|k: int, i: int|
            #![trigger order@[k], v@[i]]
            0 <= k < order@.len() && 0 <= i < v@.len() ==> order@[k] < v@[i]@.len(),
    ensures
        r@.len() == order@.len(),
        forall|k: int| 0 <= k < order@.len() ==> (#[trigger] r@[k])@.len() == v@.len(),
        forall|k: int, i: int|
            0 <= k < order@.len() && 0 <= i < v@.len() ==> #[trigger] r@[k]@[i] == v@[i]@[order@[k] as int],
{
    let mut r: Vec<Vec<T>> = Vec::new();
    let mut k: usize = 0;
    while k < order.len()
        invariant
            k <= order@.len(),
            r@.len() == k,
            forall|k: int, i: int|
                #![trigger order@[k], v@[i]]
                0 <= k < order@.len() && 0 <= i < v@.len() ==> order@[k] < v@[i]@.len(),
            forall|a: int| 0 <= a < k ==> (#[trigger] r@[a])@.len() == v@.len(),
            forall|a: int, i: int|
                0 <= a < k && 0 <= i < v@.len() ==> #[trigger] r@[a]@[i] == v@[i]@[order@[a] as int],
        decreases order@.len() - k,
    {
        let col = order[k];
        let mut column: Vec<T> = Vec::new();
        let mut i: usize = 0;
        while i < v.len()
            invariant
                k < order@.len(),
                col == order@[k as int],
                i <= v@.len(),
                column@.len() == i,
                forall|k: int, i: int|
                    #![trigger order@[k], v@[i]]
                    0 <= k < order@.len() && 0 <= i < v@.len() ==> order@[k] < v@[i]@.len(),
                forall|b: int| 0 <= b < i ==> #[trigger] column@[b] == v@[b]@[col as int],
            decreases v@.len() - i,
        {
            column.push(v[i][col]);
            i = i + 1;
        }
        r.push(column);
        k = k + 1;
    }
    r
}

} // verus!
