//! A small fixed-size matrix helper.

use vstd::prelude::*;

verus! {

/// Transposes a 3-by-3 matrix: the rows of the result are the columns
/// of the input.
pub fn transpose(matrix: [[i32; 3]; 3]) -> (r: [[i32; 3]; 3])
    ensures
        forall|i: int, j: int|
            0 <= i < 3 && 0 <= j < 3 ==> #[trigger] r@[i]@[j] == matrix@[j]@[i],
{
    let ret_matrix: [[i32; 3]; 3] = [
        [matrix[0][0], matrix[1][0], matrix[2][0]],
        [matrix[0][1], matrix[1][1], matrix[2][1]],
        [matrix[0][2], matrix[1][2], matrix[2][2]],
    ];
    ret_matrix
}

} // verus!
